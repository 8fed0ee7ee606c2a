use ozes::lexer::Lexer;
use ozes::token::Token;
use ozes::token::TokenType;

#[test]
fn given_single_words_should_be_tokenize_correctly() {
    let cases = [
        ("with", TokenType::With),
        ("message", TokenType::Message),
        ("foo", TokenType::Name),
        ("_foo", TokenType::Name),
        ("\"bar baz\"", TokenType::Binary),
        ("publisher", TokenType::Publisher),
        ("subscribe", TokenType::Subscribe),
        ("group", TokenType::Group),
        (";", TokenType::Semicolon),
        ("123", TokenType::Illegal),
        ("_123", TokenType::Name),
    ];
    for (input, expected) in cases {
        let mut lexer = Lexer::new(input.as_bytes().to_vec());
        let tok = lexer.next_token();
        assert_eq!(
            tok.token_type(),
            expected,
            "with input {input} expected {expected:?} but got {:?}",
            tok.token_type()
        );
    }
}

#[test]
fn given_sequence_should_be_tokenize_correctly() {
    let input = "with foo _foo
        \"bar baz\" publisher
        group ; 123 message _123"
        .as_bytes()
        .to_vec();
    let expecteds = [
        TokenType::With,
        TokenType::Name,
        TokenType::Name,
        TokenType::Binary,
        TokenType::Publisher,
        TokenType::Group,
        TokenType::Semicolon,
        TokenType::Illegal,
        TokenType::Message,
        TokenType::Name,
    ];
    let mut lexer = Lexer::new(input);
    for expected in expecteds {
        let tok = lexer.next_token();
        assert_eq!(
            expected,
            tok.token_type(),
            "expected {expected:?} but got {:?}",
            tok.token_type()
        );
    }
}

#[test]
fn given_sequence_value_should_be_ok() {
    let input = "subscribe foo with group bar".as_bytes().to_vec();
    let expecteds = [
        Token::new(TokenType::Subscribe, None),
        Token::new(TokenType::Name, Some(b"foo".to_vec())),
        Token::new(TokenType::With, None),
        Token::new(TokenType::Group, None),
        Token::new(TokenType::Name, Some(b"bar".to_vec())),
    ];
    let mut lexer = Lexer::new(input);
    for expected in expecteds {
        let tok = lexer.next_token();
        assert_eq!(expected, tok, "expected {expected:?} but got {tok:?}");
    }
}

#[test]
fn keywords_match_in_any_letter_case() {
    let mut lexer = Lexer::new(b"SUBSCRIBE Foo WITH Group BAR".to_vec());
    assert_eq!(lexer.next_token().token_type(), TokenType::Subscribe);
    assert_eq!(lexer.next_token().token_type(), TokenType::Name);
    assert_eq!(lexer.next_token().token_type(), TokenType::With);
    assert_eq!(lexer.next_token().token_type(), TokenType::Group);
    let bar = lexer.next_token();
    assert_eq!(bar.token_type(), TokenType::Name);
    assert_eq!(bar.value(), Some(b"BAR".to_vec()));
}

#[test]
fn end_of_input_and_nul_read_as_eof() {
    let mut lexer = Lexer::new(b"   ".to_vec());
    assert_eq!(lexer.next_token().token_type(), TokenType::Eof);
    let mut lexer = Lexer::new(b"\0message".to_vec());
    assert_eq!(lexer.next_token().token_type(), TokenType::Eof);
}

#[test]
fn unterminated_quote_is_illegal() {
    let mut lexer = Lexer::new(b"\"half open".to_vec());
    let tok = lexer.next_token();
    assert_eq!(tok.token_type(), TokenType::Illegal);
    assert_eq!(tok.value(), Some(b"half open".to_vec()));
    assert_eq!(lexer.next_token().token_type(), TokenType::Eof);
}

#[test]
fn punctuation_run_is_one_illegal_token() {
    let mut lexer = Lexer::new(b"+l22 #\"hi\"".to_vec());
    let marker = lexer.next_token();
    assert_eq!(marker.token_type(), TokenType::Illegal);
    assert_eq!(marker.value(), Some(b"+l22".to_vec()));
    let hash = lexer.next_token();
    assert_eq!(hash.token_type(), TokenType::Illegal);
    assert_eq!(hash.value(), Some(b"#".to_vec()));
    let payload = lexer.next_token();
    assert_eq!(payload.token_type(), TokenType::Binary);
    assert_eq!(payload.value(), Some(b"hi".to_vec()));
}
