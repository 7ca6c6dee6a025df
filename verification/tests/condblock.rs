use hugsqlx_core::condblock::parse_sql_blocks;
use hugsqlx_core::condblock::serialize_blocks;
use hugsqlx_core::condblock::SqlBlock;

fn chars(s: &str) -> Vec<char> {
    s.chars().collect()
}

#[test]
fn test_basic_conditional_blocks() {
    let input = r#"
SELECT foo FROM bar
WHERE a=1
--~{ need_contain 
AND b IN (...)        
--~}
--~{ musnt_contain
AND b NOT IN (...)        
--~}
ORDER BY BAZZ"#;

    let chars: Vec<char> = input.chars().collect();
    let result = parse_sql_blocks(&chars);

    assert_eq!(result.len(), 4);
    assert_eq!(
        result[0],
        SqlBlock::Literal("SELECT foo FROM bar\nWHERE a=1".to_string())
    );
    assert_eq!(
        result[1],
        SqlBlock::Conditional("need_contain".to_string(), "AND b IN (...)".to_string())
    );
    assert_eq!(
        result[2],
        SqlBlock::Conditional(
            "musnt_contain".to_string(),
            "AND b NOT IN (...)".to_string()
        )
    );
    assert_eq!(result[3], SqlBlock::Literal("ORDER BY BAZZ".to_string()));
}

#[test]
fn test_no_conditionals() {
    let input = "SELECT * FROM users WHERE id = 1";
    let chars: Vec<char> = input.chars().collect();
    let result = parse_sql_blocks(&chars);

    assert_eq!(result.len(), 1);
    assert_eq!(
        result[0],
        SqlBlock::Literal("SELECT * FROM users WHERE id = 1".to_string())
    );
}

#[test]
fn test_only_conditional() {
    let input = r#"--~{ test
SELECT 1
--~}"#;

    let chars: Vec<char> = input.chars().collect();
    let result = parse_sql_blocks(&chars);

    assert_eq!(result.len(), 1);
    assert_eq!(
        result[0],
        SqlBlock::Conditional("test".to_string(), "SELECT 1".to_string())
    );
}

#[test]
fn whitespace_only_input_yields_no_blocks() {
    let result = parse_sql_blocks(&chars("  \n\t \n"));
    assert_eq!(result.len(), 0);
}

#[test]
fn empty_input_yields_no_blocks() {
    let result = parse_sql_blocks(&chars(""));
    assert_eq!(result.len(), 0);
}

#[test]
fn marker_mid_line_is_not_recognized() {
    let result = parse_sql_blocks(&chars("SELECT 1 --~{ not_a_block\nFROM t\n--~}"));
    assert_eq!(result.len(), 1);
    assert_eq!(
        result[0],
        SqlBlock::Literal("SELECT 1 --~{ not_a_block\nFROM t\n--~}".to_string())
    );
}

#[test]
fn unterminated_opener_stays_in_literal_text() {
    let result = parse_sql_blocks(&chars("abc\n--~{ cond\nSELECT 1"));
    assert_eq!(result.len(), 2);
    assert_eq!(result[0], SqlBlock::Literal("abc".to_string()));
    assert_eq!(
        result[1],
        SqlBlock::Literal("abc\n--~{ cond\nSELECT 1".to_string())
    );
}

#[test]
fn empty_identifier_is_permitted() {
    let result = parse_sql_blocks(&chars("--~{\nSELECT 1\n--~}"));
    assert_eq!(result.len(), 1);
    assert_eq!(
        result[0],
        SqlBlock::Conditional(String::new(), "SELECT 1".to_string())
    );
}

#[test]
fn empty_conditional_body_is_emitted() {
    let result = parse_sql_blocks(&chars("--~{ cond\n--~}"));
    assert_eq!(result.len(), 1);
    assert_eq!(
        result[0],
        SqlBlock::Conditional("cond".to_string(), String::new())
    );
}

#[test]
fn serializing_and_reparsing_yields_the_same_blocks() {
    let input = "SELECT a FROM t\nWHERE 1=1\n--~{ active_only\nAND active = true\n--~}\nORDER BY a";
    let blocks = parse_sql_blocks(&chars(input));
    assert_eq!(blocks.len(), 3);
    let text = serialize_blocks(&blocks);
    let reparsed = parse_sql_blocks(&chars(&text));
    assert_eq!(reparsed, blocks);
}

#[test]
fn serialize_writes_markers_back() {
    let blocks = vec![
        SqlBlock::Literal("SELECT 1".to_string()),
        SqlBlock::Conditional("extra".to_string(), "AND b = 2".to_string()),
    ];
    let text = serialize_blocks(&blocks);
    assert_eq!(text, "SELECT 1\n--~{ extra\nAND b = 2\n--~}\n");
}

#[test]
fn duplicate_identifiers_are_kept_in_order() {
    let result = parse_sql_blocks(&chars("--~{ c\nA\n--~}\n--~{ c\nB\n--~}"));
    assert_eq!(result.len(), 2);
    assert_eq!(
        result[0],
        SqlBlock::Conditional("c".to_string(), "A".to_string())
    );
    assert_eq!(
        result[1],
        SqlBlock::Conditional("c".to_string(), "B".to_string())
    );
}
