use lexer::{tokenize, ByteSource, Delimiter, Identifier, Keyword, Lexer, LexerError, Operator, Token};

fn named(s: &str) -> Token {
    Token::Identifier(Identifier::Named(s.to_string()))
}

fn ok_tokens(input: &[u8]) -> Vec<Token> {
    tokenize(input.to_vec())
        .into_iter()
        .map(|r| r.expect("no error expected"))
        .collect()
}

#[test]
fn whitespace_only_gives_end_of_input() {
    for input in [&b""[..], b" ", b"\n\t  \r\n", b"\x0b\x0c", b"\xa0\x85 "] {
        assert_eq!(ok_tokens(input), vec![Token::EndOfInput]);
    }
}

#[test]
fn word_gives_named_identifier() {
    for word in ["x", "abc", "T", "foo_bar", "a1b2", "given2", "lets", "fnx", "__"] {
        assert_eq!(ok_tokens(word.as_bytes()), vec![named(word), Token::EndOfInput]);
    }
}

#[test]
fn keywords_are_recognised() {
    assert_eq!(ok_tokens(b"given"), vec![Token::Keyword(Keyword::Constant), Token::EndOfInput]);
    assert_eq!(ok_tokens(b"let"), vec![Token::Keyword(Keyword::Variable), Token::EndOfInput]);
    assert_eq!(ok_tokens(b"fn"), vec![Token::Keyword(Keyword::Function), Token::EndOfInput]);
}

#[test]
fn discard_and_underscore_names() {
    assert_eq!(
        ok_tokens(b"_"),
        vec![Token::Identifier(Identifier::Discard), Token::EndOfInput]
    );
    assert_eq!(ok_tokens(b"_x"), vec![named("_x"), Token::EndOfInput]);
}

#[test]
fn return_arrow_and_lone_minus() {
    assert_eq!(
        ok_tokens(b"->"),
        vec![Token::Operator(Operator::ReturnType), Token::EndOfInput]
    );
    let out = tokenize(b"-x".to_vec());
    assert_eq!(out.len(), 1);
    assert!(matches!(out[0], Err(LexerError::UnexpectedChar('-'))));
    let out = tokenize(b"-".to_vec());
    assert_eq!(out.len(), 1);
    assert!(matches!(out[0], Err(LexerError::UnexpectedChar('-'))));
}

#[test]
fn comment_to_end_of_input() {
    assert_eq!(
        ok_tokens(b"// hello"),
        vec![Token::Comment(" hello".to_string()), Token::EndOfInput]
    );
}

#[test]
fn comment_then_keyword() {
    assert_eq!(
        ok_tokens(b"// hi\nlet"),
        vec![
            Token::Comment(" hi".to_string()),
            Token::Keyword(Keyword::Variable),
            Token::EndOfInput
        ]
    );
}

#[test]
fn empty_comment() {
    assert_eq!(
        ok_tokens(b"//\n//"),
        vec![
            Token::Comment(String::new()),
            Token::Comment(String::new()),
            Token::EndOfInput
        ]
    );
}

#[test]
fn lone_slash_is_unexpected() {
    let out = tokenize(b"a / b".to_vec());
    assert_eq!(out.len(), 2);
    assert_eq!(out[0].as_ref().unwrap(), &named("a"));
    assert!(matches!(out[1], Err(LexerError::UnexpectedChar('/'))));
}

#[test]
fn separated_names() {
    assert_eq!(
        ok_tokens(b"a,b"),
        vec![named("a"), Token::Separator, named("b"), Token::EndOfInput]
    );
}

#[test]
fn signature_tokens() {
    assert_eq!(
        ok_tokens(b"(x: T) -> T"),
        vec![
            Token::Delimiter(Delimiter::OpenParen),
            named("x"),
            Token::Operator(Operator::Type),
            named("T"),
            Token::Delimiter(Delimiter::CloseParen),
            Token::Operator(Operator::ReturnType),
            named("T"),
            Token::EndOfInput
        ]
    );
}

#[test]
fn every_single_character_token() {
    assert_eq!(
        ok_tokens(b"= : ( ) { } ,"),
        vec![
            Token::Operator(Operator::Assignment),
            Token::Operator(Operator::Type),
            Token::Delimiter(Delimiter::OpenParen),
            Token::Delimiter(Delimiter::CloseParen),
            Token::Delimiter(Delimiter::OpenBrace),
            Token::Delimiter(Delimiter::CloseBrace),
            Token::Separator,
            Token::EndOfInput
        ]
    );
}

#[test]
fn definition_line() {
    assert_eq!(
        ok_tokens(b"let f = fn(_: A) -> B { given }"),
        vec![
            Token::Keyword(Keyword::Variable),
            named("f"),
            Token::Operator(Operator::Assignment),
            Token::Keyword(Keyword::Function),
            Token::Delimiter(Delimiter::OpenParen),
            Token::Identifier(Identifier::Discard),
            Token::Operator(Operator::Type),
            named("A"),
            Token::Delimiter(Delimiter::CloseParen),
            Token::Operator(Operator::ReturnType),
            named("B"),
            Token::Delimiter(Delimiter::OpenBrace),
            Token::Keyword(Keyword::Constant),
            Token::Delimiter(Delimiter::CloseBrace),
            Token::EndOfInput
        ]
    );
}

#[test]
fn latin1_letters_form_words() {
    assert_eq!(ok_tokens(b"caf\xe9"), vec![named("café"), Token::EndOfInput]);
}

#[test]
fn unexpected_character_stops_the_stream() {
    let out = tokenize(b"a ; b".to_vec());
    assert_eq!(out.len(), 2);
    assert!(matches!(out[1], Err(LexerError::UnexpectedChar(';'))));
}

#[test]
fn retokenizing_gives_the_same_tokens() {
    let input = b"let x = (y: T) -> T // end\n{ _ , z }";
    assert_eq!(ok_tokens(input), ok_tokens(input));
}

#[test]
fn lexer_stops_after_end_of_input() {
    let mut lexer = Lexer::new(ByteSource::new(b" x ".to_vec()));
    assert_eq!(lexer.next().unwrap().unwrap(), named("x"));
    assert_eq!(lexer.next().unwrap().unwrap(), Token::EndOfInput);
    assert!(lexer.next().is_none());
    assert!(lexer.next().is_none());
}

#[test]
fn read_failure_is_reported_and_ends_the_stream() {
    let err = std::io::Error::other("disk gone");
    let mut lexer = Lexer::new(ByteSource::failing(b"ab ".to_vec(), err));
    assert_eq!(lexer.next().unwrap().unwrap(), named("ab"));
    match lexer.next() {
        Some(Err(LexerError::IoError(e))) => assert_eq!(e.to_string(), "disk gone"),
        other => panic!("expected a read failure, got {:?}", other),
    }
    assert!(lexer.next().is_none());
}

#[test]
fn read_failure_after_comment_is_not_lost() {
    let err = std::io::Error::other("cut");
    let mut lexer = Lexer::new(ByteSource::failing(b"// note".to_vec(), err));
    assert_eq!(lexer.next().unwrap().unwrap(), Token::Comment(" note".to_string()));
    assert!(matches!(lexer.next(), Some(Err(LexerError::IoError(_)))));
    assert!(lexer.next().is_none());
}

#[test]
fn parse_keydentifier_decides() {
    assert_eq!(Token::parse_keydentifier("_".to_string()), Token::Identifier(Identifier::Discard));
    assert_eq!(Token::parse_keydentifier("fn".to_string()), Token::Keyword(Keyword::Function));
    assert_eq!(Token::parse_keydentifier("given".to_string()), Token::Keyword(Keyword::Constant));
    assert_eq!(Token::parse_keydentifier("gives".to_string()), named("gives"));
}

#[test]
fn keyword_try_from() {
    assert_eq!(Keyword::try_from("let"), Ok(Keyword::Variable));
    assert_eq!(Keyword::try_from("Let"), Err(()));
    assert_eq!(Keyword::try_from(""), Err(()));
}
