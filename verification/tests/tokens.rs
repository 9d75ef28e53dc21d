use syntax::{NodeType, TokenBuilder, TokenFile};

fn only_errors(builder: &mut TokenBuilder) {
    loop {
        match builder.peek() {
            Some(_) => {
                builder.bump();
                builder.error();
            }
            None => break,
        }
    }
}

#[test]
fn unmatched_character_becomes_one_error_token() {
    let file = TokenFile::new("@".to_owned(), &only_errors);
    let tokens = file.tokens();
    assert_eq!(tokens.len(), 1);
    assert!(tokens[0].ty == NodeType(0, "error"));
    assert_eq!(tokens[0].text, "@");
    assert_eq!(tokens[0].range.lo(), 0);
    assert_eq!(tokens[0].range.hi(), 1);
    assert_eq!(file.dump(), "error \"@\"\n");
}
