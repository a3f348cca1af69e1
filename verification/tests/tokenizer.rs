use finmodel::tokenizer::{Token, Tokenizer};

#[test]
fn tokenizer() {
    let mut tokens = Tokenizer::new(
        " ab \"12x \"c2 34d 123456789123456789123 x(999+ \"y",
        "()+-*/",
    );
    assert_eq!(tokens.next(), Some(Token::Literal("ab")));
    assert_eq!(tokens.next(), Some(Token::String("12x ")));
    assert_eq!(tokens.next(), Some(Token::Literal("c2")));
    assert_eq!(tokens.next(), Some(Token::Integer(34)));
    assert_eq!(tokens.next(), Some(Token::Literal("d")));
    assert_eq!(tokens.next(), Some(Token::Error("123456789123456789123")));
    assert_eq!(tokens.next(), Some(Token::Literal("x")));
    assert_eq!(tokens.next(), Some(Token::Operator('(')));
    assert_eq!(tokens.next(), Some(Token::Integer(999)));
    assert_eq!(tokens.next(), Some(Token::Operator('+')));
    assert_eq!(tokens.next(), Some(Token::Error("\"y")));
    assert_eq!(tokens.next(), None);
}

#[test]
fn tokenizer_counts_characters_not_bytes() {
    let mut tokens = Tokenizer::new("\u{e9}t\u{e9} \u{2003}\"\u{fc}\" \u{a7} 0", "+");
    assert_eq!(tokens.next(), Some(Token::Literal("\u{e9}t\u{e9}")));
    assert_eq!(tokens.next(), Some(Token::String("\u{fc}")));
    assert_eq!(tokens.next(), Some(Token::Error("\u{a7}")));
    assert_eq!(tokens.next(), Some(Token::Integer(0)));
    assert_eq!(tokens.next(), None);
    assert_eq!(tokens.next(), None);
}

#[test]
fn tokenizer_reads_the_largest_number() {
    let text = format!("{} {}0", usize::MAX, usize::MAX);
    let mut tokens = Tokenizer::new(&text, "");
    assert_eq!(tokens.next(), Some(Token::Integer(usize::MAX)));
    let second = format!("{}0", usize::MAX);
    assert_eq!(tokens.next(), Some(Token::Error(&second)));
    assert_eq!(tokens.next(), None);
    let mut empty = Tokenizer::new("   ", "+");
    assert_eq!(empty.next(), None);
}
