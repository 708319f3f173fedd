use expr_cst::syntax::SyntaxKind;
use expr_cst::tokenizer::{Tokenizer, TokenizeError};

fn collect(input: &str) -> Vec<(SyntaxKind, String)> {
    let mut t = Tokenizer::new(input);
    let mut out = Vec::new();
    loop {
        match t.next() {
            Ok(Some(tok)) => out.push(tok),
            Ok(None) => return out,
            Err(e) => panic!("unexpected lexical error: {:?}", e),
        }
    }
}

#[test]
fn single_number() {
    assert_eq!(collect("1"), vec![(SyntaxKind::NUMBER, "1".to_string())]);
}

#[test]
fn multi_digit_number() {
    assert_eq!(collect("12"), vec![(SyntaxKind::NUMBER, "12".to_string())]);
}

#[test]
fn decimal_number() {
    assert_eq!(collect("12.5"), vec![(SyntaxKind::NUMBER, "12.5".to_string())]);
}

#[test]
fn trailing_dot_is_not_consumed() {
    let mut t = Tokenizer::new("12.");
    assert_eq!(t.next(), Ok(Some((SyntaxKind::NUMBER, "12".to_string()))));
    assert_eq!(
        t.next(),
        Err(TokenizeError::UnrecognizedByte { offset: 2 })
    );
}

#[test]
fn operators_and_whitespace() {
    assert_eq!(
        collect("1 +2\t* 3/4-5"),
        vec![
            (SyntaxKind::NUMBER, "1".to_string()),
            (SyntaxKind::WHITESPACE, " ".to_string()),
            (SyntaxKind::ADD, "+".to_string()),
            (SyntaxKind::NUMBER, "2".to_string()),
            (SyntaxKind::WHITESPACE, "\t".to_string()),
            (SyntaxKind::MUL, "*".to_string()),
            (SyntaxKind::WHITESPACE, " ".to_string()),
            (SyntaxKind::NUMBER, "3".to_string()),
            (SyntaxKind::DIV, "/".to_string()),
            (SyntaxKind::NUMBER, "4".to_string()),
            (SyntaxKind::SUB, "-".to_string()),
            (SyntaxKind::NUMBER, "5".to_string()),
        ]
    );
}

#[test]
fn whitespace_run_is_maximal() {
    assert_eq!(
        collect(" \t\r "),
        vec![(SyntaxKind::WHITESPACE, " \t\r ".to_string())]
    );
}

#[test]
fn newline_is_not_whitespace() {
    let mut t = Tokenizer::new("1\n2");
    assert_eq!(t.next(), Ok(Some((SyntaxKind::NUMBER, "1".to_string()))));
    assert_eq!(
        t.next(),
        Err(TokenizeError::UnrecognizedByte { offset: 1 })
    );
}

#[test]
fn unrecognized_byte_offset() {
    let mut t = Tokenizer::new("1+@");
    assert_eq!(t.next(), Ok(Some((SyntaxKind::NUMBER, "1".to_string()))));
    assert_eq!(t.next(), Ok(Some((SyntaxKind::ADD, "+".to_string()))));
    assert_eq!(
        t.next(),
        Err(TokenizeError::UnrecognizedByte { offset: 2 })
    );
}

#[test]
fn end_of_file_flag() {
    let mut t = Tokenizer::new("7");
    assert!(!t.end_of_file());
    assert_eq!(t.next(), Ok(Some((SyntaxKind::NUMBER, "7".to_string()))));
    assert!(t.end_of_file());
    assert_eq!(t.next(), Ok(None));
}

#[test]
fn restart_yields_same_sequence() {
    let a = collect("12.5 / 2");
    let b = collect("12.5 / 2");
    assert_eq!(a, b);
}

#[test]
fn kind_raw_round_trip() {
    let kinds = [
        SyntaxKind::WHITESPACE,
        SyntaxKind::NUMBER,
        SyntaxKind::ADD,
        SyntaxKind::SUB,
        SyntaxKind::MUL,
        SyntaxKind::DIV,
        SyntaxKind::ROOT,
        SyntaxKind::OPERATION,
        SyntaxKind::ERROR,
    ];
    for (i, k) in kinds.iter().enumerate() {
        assert_eq!(k.to_raw(), i as u16);
        assert_eq!(SyntaxKind::from_raw(i as u16), *k);
    }
}
