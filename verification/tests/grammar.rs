use syntax::tiny::{tiny_file, tiny_parser, tiny_tokenizer};
use syntax::{check_parser, check_tokenizer};

fn check_tokens(text: &str, expected: &str) {
    assert!(
        check_tokenizer(&tiny_tokenizer, text, expected),
        "\nInput:\n{}\n\nExpected:\n{}",
        text,
        expected
    );
}

fn check_tree(text: &str, expected: &str) {
    assert!(
        check_parser(&tiny_tokenizer, &tiny_parser, tiny_file(), text, expected),
        "\nInput:\n{}\n\nExpected:\n{}\n",
        text,
        expected
    );
}

#[test]
fn main_test_tokenizer() {
    check_tokens(
        r#"(foo "hello"  1)"#,
        r#"
lparen "("
id "foo"
whitespace " "
string "\"hello\""
whitespace "  "
number "1"
rparen ")"
"#,
    );
}

#[test]
fn rst_test_tokenizer() {
    check_tokens(
        r#"(foo "hello"  1)"#,
        r#"
lparen "("
id "foo"
whitespace " "
string "\"hello\""
whitespace "  "
number "1"
rparen ")"
"#,
    );
}

#[test]
fn main_test_parser() {
    check_tree(
        "92",
        r#"
literal
  number "92"
    "#,
    );

    check_tree(
        r#""Hi!""#,
        r#"
literal
  string "\"Hi!\""
    "#,
    );

    check_tree(
        r"foo",
        r#"
id "foo"
    "#,
    );

    check_tree(
        r"()",
        r#"
list
  lparen "("
  rparen ")"
    "#,
    );
}

#[test]
fn rst_test_parser() {
    check_tree(
        "92",
        r#"
literal
  number "92"
    "#,
    );

    check_tree(
        r#""Hi!""#,
        r#"
literal
  string "\"Hi!\""
    "#,
    );

    check_tree(
        r"foo",
        r#"
id "foo"
    "#,
    );

    check_tree(
        r"()",
        r#"
list
  lparen "("
  rparen ")"
    "#,
    );

    check_tree(
        r#"(foo 82 "hello")"#,
        r#"
list
  lparen "("
  id "foo"
  whitespace " "
  literal
    number "82"
  whitespace " "
  literal
    string "\"hello\""
  rparen ")"
    "#,
    );
}

#[test]
fn wrong_listing_is_not_accepted() {
    assert!(!check_tokenizer(&tiny_tokenizer, "(foo)", "lparen \"(\"\n"));
    assert!(!check_parser(&tiny_tokenizer, &tiny_parser, tiny_file(), "foo", "id \"bar\"\n"));
}

#[test]
fn test_tokenizer() {
    check_tokens(
        r#"(foo "hello"  1)"#,
        r#"
lparen "("
id "foo"
whitespace " "
string "\"hello\""
whitespace "  "
number "1"
rparen ")"
"#,
    );
}

#[test]
fn test_parser() {
    check_tree(
        "92",
        r#"
literal
  number "92"
    "#,
    );

    check_tree(
        r#""Hi!""#,
        r#"
literal
  string "\"Hi!\""
    "#,
    );

    check_tree(
        r"foo",
        r#"
id "foo"
    "#,
    );

    check_tree(
        r"()",
        r#"
list
  lparen "("
  rparen ")"
    "#,
    );

    check_tree(
        r#"(foo 82 "hello")"#,
        r#"
list
  lparen "("
  id "foo"
  whitespace " "
  literal
    number "82"
  whitespace " "
  literal
    string "\"hello\""
  rparen ")"
    "#,
    );
}
