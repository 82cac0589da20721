use pretty_printing::format_chars;
use pretty_printing::format_schema;

#[test]
fn test_increase_indent() {
    let actual = format_schema("{,}").unwrap();
    assert_eq!("{\n    ,\n}", actual);
}

#[test]
fn test_decrease_indent() {
    let actual = format_schema("{abc,}").unwrap();
    assert_eq!("{\n    abc,\n}", actual);
}

#[test]
fn test_newline_after_comma() {
    let actual = format_schema(",,").unwrap();
    assert_eq!(",\n,", actual);
}

#[test]
fn test_remove_whitespace_macro_call() {
    let actual = format_schema("table ! { }").unwrap();
    assert_eq!("table! {\n}", actual);
}

#[test]
fn test_remove_whitespace_path_segments() {
    let actual = format_schema(":: diesel :: types :: Text").unwrap();
    assert_eq!("::diesel::types::Text", actual);
}

#[test]
fn test_remove_whitespace_parenthesis() {
    let actual = format_schema("foo ( 42 )").unwrap();
    assert_eq!("foo (42)", actual);
}

#[test]
fn test_remove_whitespace_angular_brackets() {
    let actual = format_schema("Option < i32 >").unwrap();
    assert_eq!("Option<i32>", actual);
}

#[test]
fn test_remove_whitespace_before_comma() {
    let actual = format_schema("id -> Int4 , username -> Varchar").unwrap();
    assert_eq!("id -> Int4,\nusername -> Varchar", actual);
}

#[test]
fn test_format_nullable() {
    let actual = format_schema("Nullable < :: diesel :: types :: Text >").unwrap();
    assert_eq!("Nullable<::diesel::types::Text>", actual);
}

#[test]
fn test_format_nullable_multispace() {
    let actual = format_schema("Nullable <  Integer >").unwrap();
    assert_eq!("Nullable<Integer>", actual);
}

#[test]
fn test_format_arrow() {
    let actual = format_schema("created_at -> :: diesel :: types :: Timestamp").unwrap();
    assert_eq!("created_at -> ::diesel::types::Timestamp", actual);
}

#[test]
fn test_format_full_line() {
    let actual = format_schema("created_at -> :: diesel :: types :: Timestamp ,,").unwrap();
    assert_eq!("created_at -> ::diesel::types::Timestamp,\n,", actual);
}

#[test]
fn test_format_generated_mod() {
    let input = "table ! { users ( id ) { id -> :: diesel :: types :: Int4 , \
                 username -> :: diesel :: types :: Varchar , password -> :: diesel :: types :: Varchar \
                 , } }";
    let expected = "table! {\n    users (id) {\n        id -> ::diesel::types::Int4,\n        \
                    username -> ::diesel::types::Varchar,\n        \
                    password -> ::diesel::types::Varchar,\n    }\n}";
    let actual = format_schema(input).unwrap();
    assert_eq!(expected, actual);
}

#[test]
fn test_no_newline_after_comma_inside_parenthetis() {
    let actual = format_schema("(a, b)").unwrap();
    assert_eq!("(a, b)", actual);
}

#[test]
fn test_two_declarations_blank_line() {
    // The cleanup inserts a line break before each declaration keyword, so
    // successive declarations end up separated by a blank line.
    let actual = format_schema("table ! { } table ! { }").unwrap();
    assert_eq!("table! {\n}\n\ntable! {\n}", actual);
}

#[test]
fn test_empty_input() {
    let actual = format_schema("").unwrap();
    assert_eq!("", actual);
}

#[test]
fn test_whitespace_only_input() {
    let actual = format_schema(" \t \n ").unwrap();
    assert_eq!("", actual);
}

#[test]
fn test_unmatched_close_does_not_underflow() {
    // A close with no open: the indentation stays empty and the call still
    // returns (the output is merely cosmetically odd, never a crash).
    let actual = format_schema("}").unwrap();
    assert_eq!("}", actual);
}

#[test]
fn test_no_edge_whitespace() {
    let actual = format_schema("   id -> Int4   ").unwrap();
    assert_eq!("id -> Int4", actual);
    assert_eq!(actual.trim(), actual);
}

#[test]
fn test_tokens_preserved() {
    // The non-whitespace characters of the output are exactly those of the
    // input, in multiset terms.
    let input = "table ! { users ( id ) { id -> Int4 , } }";
    let actual = format_schema(input).unwrap();
    let mut input_tokens: Vec<char> = input.chars().filter(|c| !c.is_whitespace()).collect();
    let mut output_tokens: Vec<char> = actual.chars().filter(|c| !c.is_whitespace()).collect();
    input_tokens.sort();
    output_tokens.sort();
    assert_eq!(input_tokens, output_tokens);
}

#[test]
fn test_format_chars_matches_format_schema() {
    let input: Vec<char> = "{,}".chars().collect();
    let actual = format_chars(&input);
    let expected: Vec<char> = "{\n    ,\n}".chars().collect();
    assert_eq!(expected, actual);
}

#[test]
fn test_depth_two_levels() {
    // Tokens inside one open group sit one unit deep, inside two groups two
    // units deep, and each close realigns one level shallower.
    let actual = format_schema("a { b { c , } }").unwrap();
    assert_eq!("a {\n    b {\n        c,\n    }\n}", actual);
}
