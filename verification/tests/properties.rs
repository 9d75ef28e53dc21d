use std::cell::Cell;

use syntax::ast::{AstFile, ListElement, LiteralValue};
use syntax::conform::check_program;
use syntax::decimal::{parse_u32, write_decimal};
use syntax::pyt;
use syntax::ring_buffer::RingBuff;
use syntax::runtime::{can_feed, feed, parse_digit, print_bytes, Scan, Step};
use syntax::tiny::{parse_tiny, tiny_file, tiny_parser, tiny_tokenizer};
use syntax::{LazyCell, Node, NodeType, Range, RstBuilder, RstFile, TokenBuilder, TokenFile};

fn texts(file: &TokenFile) -> Vec<(String, String)> {
    file.tokens()
        .iter()
        .map(|t| (t.ty.name().to_owned(), t.text.to_owned()))
        .collect()
}

fn pairs(items: &[(&str, &str)]) -> Vec<(String, String)> {
    items
        .iter()
        .map(|(name, text)| (name.to_string(), text.to_string()))
        .collect()
}

fn child_nodes<'f>(node: &Node<'f>) -> Vec<Node<'f>> {
    let mut result = Vec::new();
    let mut children = node.children();
    while let Some(child) = children.next() {
        result.push(child);
    }
    result
}

#[test]
fn tokens_cover_the_text_without_gap() {
    let text = "(foo \"h\u{e9}llo\"  12 \u{2603}) @ x";
    let file = TokenFile::new(text.to_owned(), &tiny_tokenizer);
    let tokens = file.tokens();
    let mut joined = String::new();
    let mut offset = 0;
    for token in tokens.iter() {
        assert_eq!(token.range.lo(), offset);
        assert!(token.range.lo() < token.range.hi());
        assert_eq!(&text[token.range.lo() as usize..token.range.hi() as usize], token.text);
        offset = token.range.hi();
        joined.push_str(token.text);
    }
    assert_eq!(offset as usize, text.len());
    assert_eq!(joined, text);
    assert_eq!(file.into_text(), text);
}

#[test]
fn spans_count_bytes_not_characters() {
    let file = TokenFile::new("\u{e9}1".to_owned(), &tiny_tokenizer);
    let tokens = file.tokens();
    assert_eq!(tokens.len(), 2);
    assert_eq!(tokens[0].range, Range::from_to(0, 2));
    assert_eq!(tokens[0].text, "\u{e9}");
    assert_eq!(tokens[0].ty.name(), "id");
    assert_eq!(tokens[1].range, Range::from_to(2, 3));
    assert_eq!(tokens[1].ty.name(), "number");
}

#[test]
fn empty_text_has_no_tokens() {
    let file = TokenFile::new(String::new(), &tiny_tokenizer);
    assert_eq!(file.tokens().len(), 0);
    assert_eq!(file.dump(), "");
    let rst = RstFile::new(file, tiny_file(), &tiny_parser);
    assert_eq!(rst.dump(), "");
    assert!(!rst.root().has_span());
}

#[test]
fn assignment_is_tokenized() {
    let file = TokenFile::new("a = 1".to_owned(), &pyt::tokenize);
    assert_eq!(
        texts(&file),
        pairs(&[("id", "a"), ("whitespace", " "), ("=", "="), ("whitespace", " "), ("number", "1")])
    );
    assert_eq!(
        file.dump(),
        "id \"a\"\nwhitespace \" \"\n= \"=\"\nwhitespace \" \"\nnumber \"1\"\n"
    );
}

#[test]
fn operators_are_tokenized() {
    let file = TokenFile::new("(1+2)*3-4/5".to_owned(), &pyt::tokenize);
    let names: Vec<&str> = file.tokens().iter().map(|t| t.ty.name()).collect();
    assert_eq!(
        names,
        vec!["lparen", "number", "+", "number", "rparen", "*", "number", "-", "number", "/", "number"]
    );
}

#[test]
fn unmatched_character_is_one_error_token() {
    let file = TokenFile::new("@".to_owned(), &tiny_tokenizer);
    assert_eq!(texts(&file), pairs(&[("error", "@")]));
    let file = TokenFile::new("@".to_owned(), &pyt::tokenize);
    assert_eq!(texts(&file), pairs(&[("error", "@")]));
    let file = TokenFile::new("a@@b".to_owned(), &tiny_tokenizer);
    assert_eq!(
        texts(&file),
        pairs(&[("id", "a"), ("error", "@"), ("error", "@"), ("id", "b")])
    );
}

#[test]
fn unterminated_string_is_an_error_token() {
    let file = TokenFile::new("\"abc".to_owned(), &tiny_tokenizer);
    assert_eq!(texts(&file), pairs(&[("error", "\"abc")]));
}

#[test]
fn cursor_combinators() {
    let digits = |c: char| c.is_ascii_digit();
    let letters = |c: char| c.is_alphabetic();
    let number = NodeType(5, "number");
    let word = NodeType(7, "id");
    let plus = NodeType(13, "+");
    let tokenizer = move |builder: &mut TokenBuilder| loop {
        if builder.try_emit(plus, '+') {
            continue;
        }
        if builder.try_pred_token(&[(number, &digits as &dyn Fn(char) -> bool), (word, &letters)]) {
            continue;
        }
        if builder.try_text_token(&[(NodeType(3, "lparen"), '('), (NodeType(4, "rparen"), ')')]) {
            continue;
        }
        match builder.peek() {
            Some(_) => {
                builder.bump();
                builder.error();
            }
            None => break,
        }
    };
    let file = TokenFile::new("12+ab(7)?".to_owned(), &tokenizer);
    assert_eq!(
        texts(&file),
        pairs(&[
            ("number", "12"),
            ("+", "+"),
            ("id", "ab"),
            ("lparen", "("),
            ("number", "7"),
            ("rparen", ")"),
            ("error", "?"),
        ])
    );
}

#[test]
fn empty_list_is_parsed() {
    let rst = parse_tiny("()".to_owned());
    assert_eq!(rst.dump(), "list\n  lparen \"(\"\n  rparen \")\"\n");
    let root = rst.root();
    assert!(root.ty() == tiny_file());
    let lists = child_nodes(&root);
    assert_eq!(lists.len(), 1);
    assert_eq!(lists[0].ty().name(), "list");
    assert_eq!(lists[0].text(), "()");
    assert_eq!(root.text(), "()");
}

#[test]
fn list_has_two_elements() {
    let file = AstFile::from_text("(foo 1)");
    let program = file.root();
    let elements = program.elements();
    assert_eq!(elements.len(), 1);
    let list = match &elements[0] {
        ListElement::List(list) => *list,
        _ => panic!(),
    };
    let kept = child_nodes(&list.node);
    let names: Vec<&str> = kept.iter().map(|n| n.ty().name()).collect();
    assert_eq!(names, vec!["lparen", "id", "literal", "rparen"]);
    assert_eq!(kept[1].text(), "foo");
    assert_eq!(kept[2].text(), "1");
    let inner = child_nodes(&kept[2]);
    assert_eq!(inner.len(), 1);
    assert_eq!(inner[0].ty().name(), "number");
    let elements = list.elements();
    assert_eq!(elements.len(), 2);
    assert!(matches!(elements[0], ListElement::Variable(_)));
    assert!(matches!(elements[1], ListElement::Literal(_)));
}

#[test]
fn children_without_whitespace_are_a_subsequence() {
    let rst = parse_tiny(" ( a  b\t\"c\" ( d ) ) ".to_owned());
    fn check(node: Node) {
        let all = node.children_vec();
        let mut raw = node.children_with_ws();
        let mut walked = Vec::new();
        while let Some(child) = raw.next() {
            walked.push(child);
        }
        assert_eq!(all.len(), walked.len());
        let expected: Vec<String> = all
            .iter()
            .filter(|n| n.ty().0 != 1)
            .map(|n| format!("{}:{}", n.ty().name(), n.text()))
            .collect();
        let mut kept = node.children();
        let mut actual = Vec::new();
        while let Some(child) = kept.next() {
            actual.push(format!("{}:{}", child.ty().name(), child.text()));
        }
        assert_eq!(actual, expected);
        for child in all {
            check(child);
        }
    }
    let root = rst.root();
    assert_eq!(root.children_vec().len(), 3);
    check(root);
}

#[test]
fn text_of_a_node_is_the_texts_of_its_children() {
    let rst = parse_tiny("(add 2 (subtract 4 \"x y\")) z".to_owned());
    fn check(node: Node) {
        let children = node.children_vec();
        if node.is_composite() {
            assert!(!children.is_empty());
            let joined: String = children.iter().map(|c| c.text()).collect();
            assert_eq!(node.text(), joined);
        } else {
            assert!(children.is_empty());
        }
        for child in children {
            check(child);
        }
    }
    let root = rst.root();
    assert_eq!(root.text(), "(add 2 (subtract 4 \"x y\")) z");
    check(root);
}

#[test]
fn text_is_read_twice_with_the_same_result() {
    let rst = parse_tiny("(foo (bar 1))".to_owned());
    let list = child_nodes(&rst.root())[0];
    let first = list.text();
    let second = list.text();
    assert_eq!(first, "(foo (bar 1))");
    assert_eq!(first, second);
}

#[test]
fn lazy_cell_computes_once() {
    let runs = Cell::new(0);
    let cell: LazyCell<u32> = LazyCell::new();
    let first = cell.get(|| {
        runs.set(runs.get() + 1);
        41
    });
    let second = cell.get(|| {
        runs.set(runs.get() + 1);
        42
    });
    assert_eq!(first, 41);
    assert_eq!(second, 41);
    assert_eq!(runs.get(), 1);
}

#[test]
fn builder_is_balanced_when_the_root_is_closed() {
    let file = TokenFile::new("a b".to_owned(), &tiny_tokenizer);
    let tokens = file.tokens();
    let mut builder = RstBuilder::new(&tokens);
    assert!(builder.is_balanced());
    builder.start(tiny_file());
    assert!(!builder.is_balanced());
    assert!(builder.peek() == Some(NodeType(7, "id")));
    builder.bump();
    builder.skip_ws();
    builder.start(NodeType(10, "list"));
    builder.eat(NodeType(7, "id"));
    assert!(builder.peek().is_none());
    builder.finish(NodeType(10, "list"));
    assert!(!builder.is_balanced());
    builder.finish(tiny_file());
    assert!(builder.is_balanced());
}

#[test]
fn leading_and_trailing_whitespace_goes_below_the_root() {
    let rst = parse_tiny("  a \n".to_owned());
    assert_eq!(rst.dump(), "whitespace \"  \"\nid \"a\"\nwhitespace \" \\n\"\n");
    assert_eq!(rst.root().text(), "  a \n");
}

#[test]
fn tokens_behind_the_last_element_stay_out_of_the_tree() {
    let rst = parse_tiny("a ) b".to_owned());
    assert_eq!(rst.dump(), "id \"a\"\nwhitespace \" \"\n");
}

#[test]
fn unclosed_list_is_no_program() {
    let file = AstFile::from_text("(foo 1");
    assert!(!check_program(&file));
    let file = AstFile::from_text("()");
    assert!(!check_program(&file));
    let file = AstFile::from_text("(f 99999999999)");
    assert!(!check_program(&file));
    let file = AstFile::from_text("(f 4294967295 \"\") x");
    assert!(check_program(&file));
    let file = AstFile::from_text("");
    assert!(check_program(&file));
}

#[test]
fn statement_parser_leaves_the_last_assignment_open() {
    let file = TokenFile::new("a =1 b".to_owned(), &pyt::tokenize);
    let tokens = file.tokens();
    let mut builder = RstBuilder::open_file(&tokens, pyt::file());
    pyt::parse(&mut builder);
    assert!(builder.peek().is_none());
    assert!(!builder.is_balanced());
    builder.finish(pyt::assignment());
    builder.finish(pyt::file());
    assert!(builder.is_balanced());
}

#[test]
fn decimal_numbers() {
    assert_eq!(parse_u32("0"), Some(0));
    assert_eq!(parse_u32("007"), Some(7));
    assert_eq!(parse_u32("4294967295"), Some(4294967295));
    assert_eq!(parse_u32("4294967296"), None);
    assert_eq!(parse_u32("42949672950"), None);
    assert_eq!(parse_u32(""), None);
    assert_eq!(parse_u32("12a"), None);
    assert_eq!(parse_u32("+1"), None);
    assert_eq!(parse_u32("\u{663}"), None);
    let mut out = String::from("n=");
    write_decimal(&mut out, 0);
    write_decimal(&mut out, 10);
    write_decimal(&mut out, 18446744073709551615);
    assert_eq!(out, "n=01018446744073709551615");
    assert_eq!(print_bytes(0), b"0".to_vec());
    assert_eq!(print_bytes(9050), b"9050".to_vec());
}

#[test]
fn numbers_are_read_byte_by_byte() {
    assert_eq!(parse_digit(b'7'), Some(7));
    assert_eq!(parse_digit(b'/'), None);
    assert_eq!(parse_digit(b':'), None);
    let mut scan = Scan::Leading;
    let mut result = None;
    for byte in b" x12 3" {
        assert!(can_feed(scan, *byte));
        match feed(scan, *byte) {
            Step::More(next) => scan = next,
            Step::Done(n) => {
                result = Some(n);
                break;
            }
        }
    }
    assert_eq!(result, Some(12));
    assert!(can_feed(Scan::Number(1844674407370955161), b'5'));
    assert!(!can_feed(Scan::Number(1844674407370955161), b'6'));
    assert!(can_feed(Scan::Number(1844674407370955161), b' '));
    assert_eq!(feed(Scan::Number(1844674407370955161), b'5'), Step::More(Scan::Number(u64::MAX)));
}

#[test]
fn ring_hands_out_what_was_written() {
    let mut ring = RingBuff::empty();
    assert_eq!(ring.next(), None);
    assert_eq!(ring.free_range(), (0, 128));
    {
        let free = ring.buff();
        assert_eq!(free.len(), 128);
        free[0] = b'4';
        free[1] = b'2';
    }
    ring.advance(2);
    assert_eq!(ring.free_range(), (2, 128));
    assert_eq!(ring.next(), Some(b'4'));
    assert_eq!(ring.free_range(), (2, 128));
    assert_eq!(ring.next(), Some(b'2'));
    assert_eq!(ring.next(), None);
    ring.advance(126);
    assert_eq!(ring.free_range(), (0, 2));
    assert_eq!(ring.buff().len(), 2);
    ring.fill(1, b'9');
    ring.advance(2);
    for _ in 0..127 {
        ring.next();
    }
    assert_eq!(ring.next(), Some(b'9'));
}

#[test]
fn listings_are_compared_without_whitespace_at_the_ends() {
    assert!(syntax::check_tokenizer(
        &tiny_tokenizer,
        " \n a \t",
        "\n\n  id \"a\"  \n"
    ));
    assert!(syntax::check_parser(
        &tiny_tokenizer,
        &tiny_parser,
        tiny_file(),
        "\n(a)\n",
        "list\n  lparen \"(\"\n  id \"a\"\n  rparen \")\""
    ));
    assert!(!syntax::check_tokenizer(&tiny_tokenizer, " a ", "whitespace \" \"\nid \"a\""));
    assert!(syntax::golden::matches_trimmed(" x y\n", "x y"));
    assert!(!syntax::golden::matches_trimmed("x  y", "x y"));
}

#[test]
fn listing_escapes_as_debug_does() {
    let file = TokenFile::new("\"a\\b\"\t\u{e9}".to_owned(), &tiny_tokenizer);
    assert_eq!(
        file.dump(),
        "string \"\\\"a\\\\b\\\"\"\nwhitespace \"\\t\"\nid \"\u{e9}\"\n"
    );
}

#[test]
fn short_texts_fit_spans() {
    assert!(syntax::range::fits_spans(""));
    assert!(syntax::range::fits_spans("(foo \u{2603})"));
    assert_eq!(syntax::range::utf8_width('a'), 1);
    assert_eq!(syntax::range::utf8_width('\u{e9}'), 2);
    assert_eq!(syntax::range::utf8_width('\u{2603}'), 3);
    assert_eq!(syntax::range::utf8_width('\u{1f600}'), 4);
    assert_eq!(syntax::range::slice_between("a\u{e9}b", 1, 3), "\u{e9}");
    assert_eq!(syntax::range::slice_text("a\u{e9}b", Range::from_to(3, 4)), "b");
}

#[test]
fn literals_have_values() {
    let file = AstFile::from_text("29 \"hi\" \"\"");
    let elements = file.root().elements();
    assert_eq!(elements.len(), 3);
    let values: Vec<String> = elements
        .iter()
        .map(|e| match e {
            ListElement::Literal(literal) => match literal.value() {
                LiteralValue::Int(n) => format!("int {}", n),
                LiteralValue::String(s) => format!("string {}", s),
            },
            _ => panic!(),
        })
        .collect();
    assert_eq!(values, vec!["int 29", "string hi", "string "]);
}

#[test]
fn unclosed_list_is_closed_where_no_element_follows() {
    let rst = parse_tiny("(a (b".to_owned());
    assert_eq!(
        rst.dump(),
        "list\n  lparen \"(\"\n  id \"a\"\n  whitespace \" \"\n  list\n    lparen \"(\"\n    id \"b\"\n"
    );
}

#[test]
fn node_types_are_equal_by_id() {
    assert!(NodeType(7, "id") == NodeType(7, "identifier"));
    assert!(NodeType(7, "id") != NodeType(11, "id"));
    assert_eq!(syntax::error().name(), "error");
    assert_eq!(syntax::whitespace().0, 1);
}

#[test]
fn empty_ring_holds_zeros() {
    let mut ring = RingBuff::empty();
    assert_eq!(ring.next(), None);
    let free = ring.buff();
    assert_eq!(free.len(), 128);
    assert!(free.iter().all(|byte| *byte == 0));
    ring.advance(1);
    assert_eq!(ring.next(), Some(0));
}
