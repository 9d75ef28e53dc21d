use syntax::ast::{AstFile, ListElement};
use syntax::codegen::generate;
use syntax::target::translate;
use syntax::tiny::parse_tiny;

#[test]
fn ast_test_ast() {
    let file = AstFile::new(parse_tiny("29 (foo 1)".to_owned()));
    let program = file.root();
    let elements = program.elements();
    assert_eq!(elements.len(), 2);
    let sub = match (&elements[0], &elements[1]) {
        (&ListElement::Literal(_), &ListElement::List(ref ls)) => ls,
        _ => panic!(),
    };

    let elements = sub.elements();
    assert_eq!(elements.len(), 2);

    match (&elements[0], &elements[1]) {
        (&ListElement::Variable(_), &ListElement::Literal(_)) => {}
        _ => panic!(),
    };
}

#[test]
fn test_ast() {
    let file = AstFile::from_text("29 (foo 1)");
    let program = file.root();
    let elements = program.elements();
    assert_eq!(elements.len(), 2);
    let sub = match (&elements[0], &elements[1]) {
        (&ListElement::Literal(_), &ListElement::List(ref ls)) => ls,
        _ => panic!(),
    };

    let elements = sub.elements();
    assert_eq!(elements.len(), 2);

    match (&elements[0], &elements[1]) {
        (&ListElement::Variable(_), &ListElement::Literal(_)) => {}
        _ => panic!(),
    };
}

#[test]
fn test_codegen() {
    let file = AstFile::new(parse_tiny(
        r#"(add 2 (subtract 4 2))"hello""#.to_owned(),
    ));
    let program = translate(&file);
    let actual = generate(&program);
    let expect = r#"
add(2, subtract(4, 2));
"hello";
"#
    .trim_start();

    assert_eq!(expect, actual);
}

#[test]
fn test_translation() {
    let source = AstFile::new(parse_tiny(r#"hello (1 "hi")"#.to_owned()));
    let target = translate(&source);
    let actual = target.pretty();
    let expected = r#"
Program {
    body: [
        ExpressionStatement(
            Identifier {
                value: "hello"
            }
        ),
        ExpressionStatement(
            Call {
                calee: NumberLiteral {
                    value: 1
                },
                arguments: [
                    StringLiteral {
                        value: "hi"
                    }
                ]
            }
        )
    ]
}"#;

    if actual.trim() != expected.trim() {
        panic!("Mismatch!\nActual:\n{}\nExpected:\n{}\n", actual, expected)
    }
}
