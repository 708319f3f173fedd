use expr_cst::parser::Parser;
use expr_cst::syntax::SyntaxKind;
use expr_cst::tokenizer::{Tokenizer, TokenizeError};
use rowan::{GreenNode, GreenNodeData, GreenTokenData, NodeOrToken};

fn render_node(n: &GreenNodeData) -> String {
    let kind = SyntaxKind::from_raw(n.kind().0);
    let mut s = format!("{:?}(", kind);
    let mut first = true;
    for c in n.children() {
        if !first {
            s.push(',');
        }
        first = false;
        match c {
            NodeOrToken::Node(inner) => s.push_str(&render_node(inner)),
            NodeOrToken::Token(tok) => s.push_str(&render_token(tok)),
        }
    }
    s.push(')');
    s
}

fn render_token(t: &GreenTokenData) -> String {
    let kind = SyntaxKind::from_raw(t.kind().0);
    format!("{:?}'{}'", kind, t.text())
}

fn parse_ok(input: &str) -> GreenNode {
    Parser::new(Tokenizer::new(input)).parse().expect("parse should succeed")
}

fn parsed(input: &str) -> String {
    render_node(&parse_ok(input))
}

fn leaf_text(n: &GreenNodeData, out: &mut String) {
    for c in n.children() {
        match c {
            NodeOrToken::Node(inner) => leaf_text(inner, out),
            NodeOrToken::Token(tok) => out.push_str(tok.text()),
        }
    }
}

fn render_skipping_ws(n: &GreenNodeData) -> String {
    let kind = SyntaxKind::from_raw(n.kind().0);
    let mut s = format!("{:?}(", kind);
    let mut first = true;
    for c in n.children() {
        match c {
            NodeOrToken::Node(inner) => {
                if !first {
                    s.push(',');
                }
                first = false;
                s.push_str(&render_skipping_ws(inner));
            },
            NodeOrToken::Token(tok) => {
                if SyntaxKind::from_raw(tok.kind().0) != SyntaxKind::WHITESPACE {
                    if !first {
                        s.push(',');
                    }
                    first = false;
                    s.push_str(&render_token(tok));
                }
            },
        }
    }
    s.push(')');
    s
}

#[test]
fn single_number_tree() {
    assert_eq!(parsed("1"), "ROOT(NUMBER'1')");
}

#[test]
fn empty_input_gives_empty_error_node() {
    assert_eq!(parsed(""), "ROOT(ERROR())");
}

#[test]
fn simple_addition() {
    assert_eq!(
        parsed("1 + 2"),
        "ROOT(OPERATION(NUMBER'1',WHITESPACE' ',ADD'+',WHITESPACE' ',NUMBER'2'))"
    );
}

#[test]
fn precedence_and_left_associativity() {
    assert_eq!(
        parsed("1 + 2 * 3 + 4"),
        "ROOT(OPERATION(OPERATION(NUMBER'1',WHITESPACE' ',ADD'+',\
         OPERATION(WHITESPACE' ',NUMBER'2',WHITESPACE' ',MUL'*',WHITESPACE' ',NUMBER'3'),\
         WHITESPACE' '),ADD'+',WHITESPACE' ',NUMBER'4'))"
    );
}

#[test]
fn subtraction_nests_to_the_left() {
    assert_eq!(
        parsed("1 - 2 - 3"),
        "ROOT(OPERATION(OPERATION(NUMBER'1',WHITESPACE' ',SUB'-',WHITESPACE' ',NUMBER'2',\
         WHITESPACE' '),SUB'-',WHITESPACE' ',NUMBER'3'))"
    );
}

#[test]
fn decimal_division() {
    assert_eq!(
        parsed("12.5 / 2"),
        "ROOT(OPERATION(NUMBER'12.5',WHITESPACE' ',DIV'/',WHITESPACE' ',NUMBER'2'))"
    );
}

#[test]
fn operator_where_value_expected_becomes_error_node() {
    // The parser reads one expression: the lone `+` becomes an error
    // node, the whitespace after it lands under the root, and the `1`
    // that follows is trailing input, left unread.
    assert_eq!(parsed("+ 1"), "ROOT(ERROR(ADD'+'),WHITESPACE' ')");
}

#[test]
fn plain_multiplication_chain() {
    assert_eq!(
        parsed("2*3/4"),
        "ROOT(OPERATION(OPERATION(NUMBER'2',MUL'*',NUMBER'3'),DIV'/',NUMBER'4'))"
    );
}

#[test]
fn lossless_leaf_concatenation() {
    for input in ["1", "", "1 + 2", "1 + 2 * 3 + 4", "1 - 2 - 3", "12.5 / 2", "\t1+ 2 ", " 7 "] {
        let g = parse_ok(input);
        let mut text = String::new();
        leaf_text(&g, &mut text);
        assert_eq!(text, input, "leaf concatenation must rebuild the input");
    }
}

#[test]
fn trailing_whitespace_is_kept_under_root() {
    assert_eq!(parsed(" 7 "), "ROOT(WHITESPACE' ',NUMBER'7',WHITESPACE' ')");
}

#[test]
fn unrecognized_byte_aborts_the_parse() {
    let r = Parser::new(Tokenizer::new("1 + @")).parse();
    assert_eq!(r.unwrap_err(), TokenizeError::UnrecognizedByte { offset: 4 });
}

#[test]
fn trailing_dot_aborts_the_parse() {
    let r = Parser::new(Tokenizer::new("12.")).parse();
    assert_eq!(r.unwrap_err(), TokenizeError::UnrecognizedByte { offset: 2 });
}

#[test]
fn unrecognized_byte_past_the_expression_is_never_reached() {
    // The parse stops after the peeked `2`; the `@` is trailing input.
    let g = Parser::new(Tokenizer::new("1 2@")).parse();
    assert!(g.is_ok());
}

#[test]
fn whitespace_does_not_change_structure() {
    let with_ws = parse_ok("1 + 2 * 3 + 4");
    let without_ws = parse_ok("1+2*3+4");
    assert_eq!(render_skipping_ws(&with_ws), render_skipping_ws(&without_ws));
}

#[test]
fn end_of_input_mid_expression_gives_empty_error_node() {
    assert_eq!(
        parsed("1 +"),
        "ROOT(OPERATION(NUMBER'1',WHITESPACE' ',ADD'+',ERROR()))"
    );
}

#[test]
fn tab_and_carriage_return_are_trivia() {
    assert_eq!(
        parsed("1\t+\r2"),
        "ROOT(OPERATION(NUMBER'1',WHITESPACE'\t',ADD'+',WHITESPACE'\r',NUMBER'2'))"
    );
}

#[test]
fn second_dot_is_not_part_of_the_number() {
    let r = Parser::new(Tokenizer::new("12.5.3")).parse();
    assert_eq!(r.unwrap_err(), TokenizeError::UnrecognizedByte { offset: 4 });
}

#[test]
fn parse_is_deterministic() {
    let a = parse_ok("1 + 2 * 3 + 4");
    let b = parse_ok("1 + 2 * 3 + 4");
    assert_eq!(a, b);
    assert_eq!(render_node(&a), render_node(&b));
}
