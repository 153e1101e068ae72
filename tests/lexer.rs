use monkey::lexer::{tokenize, Lexer, Token};

fn ident(s: &str) -> Token {
    Token::Ident(s.to_owned())
}

fn integer(s: &str) -> Token {
    Token::Int(s.to_string())
}

#[test]
fn test_sample_next_token() {
    let input = "=+(){},;".to_owned();
    let mut lexer = Lexer::new(input);

    let test_tokens = [
        Token::Assign,
        Token::Plus,
        Token::LParen,
        Token::RParen,
        Token::LBrace,
        Token::RBrace,
        Token::Comma,
        Token::Semicolon,
    ];

    for token in test_tokens {
        let next_token = lexer.next_token();
        println!("expected: {:?}, received: {:?}", token, next_token);
        assert_eq!(token, next_token);
    }
}

#[test]
fn test_next_token() {
    let input = r#"let five = 5;
                        let ten = 10;
                        let add = fn(x, y) {
                            x + y;
                        };
                        let result = add(five, ten);"#;

    let mut lexer = Lexer::new(input.to_owned());

    let test_tokens = [
        Token::Let,
        ident("five"),
        Token::Assign,
        integer("5"),
        Token::Semicolon,
        Token::Let,
        ident("ten"),
        Token::Assign,
        integer("10"),
        Token::Semicolon,
        Token::Let,
        ident("add"),
        Token::Assign,
        Token::Function,
        Token::LParen,
        ident("x"),
        Token::Comma,
        ident("y"),
        Token::RParen,
        Token::LBrace,
        ident("x"),
        Token::Plus,
        ident("y"),
        Token::Semicolon,
        Token::RBrace,
        Token::Semicolon,
        Token::Let,
        ident("result"),
        Token::Assign,
        ident("add"),
        Token::LParen,
        ident("five"),
        Token::Comma,
        ident("ten"),
        Token::RParen,
        Token::Semicolon,
    ];

    for (i, token) in test_tokens.iter().enumerate() {
        let next_token = lexer.next_token();
        println!("{}: expected: {:?}, received: {:?}", i, token, next_token);
        assert_eq!(token, &next_token);
    }
}

#[test]
fn test_extended_tokens() {
    let input = r#"!-/*5;
        5 < 10 > 5;
        10 == 10;
        10 != 9;
        "#;

    let mut lexer = Lexer::new(input.to_string());

    let test_tokens = [
        Token::Bang,
        Token::Minus,
        Token::Slash,
        Token::Asterisk,
        integer("5"),
        Token::Semicolon,
        integer("5"),
        Token::Lt,
        integer("10"),
        Token::Gt,
        integer("5"),
        Token::Semicolon,
        integer("10"),
        Token::Equal,
        integer("10"),
        Token::Semicolon,
        integer("10"),
        Token::NotEqual,
        integer("9"),
        Token::Semicolon,
    ];

    for (i, token) in test_tokens.iter().enumerate() {
        let next_token = lexer.next_token();
        println!("{}: expected: {:?}, received: {:?}", i, token, next_token);
        assert_eq!(token, &next_token);
    }
}

#[test]
fn test_if_statement() {
    let input = r#"
        if (5 < 10) {
        return true;
        } else {
        return false;
        }
        "#;

    let mut lexer = Lexer::new(input.to_string());

    let test_tokens = [
        Token::If,
        Token::LParen,
        integer("5"),
        Token::Lt,
        integer("10"),
        Token::RParen,
        Token::LBrace,
        Token::Return,
        Token::True,
        Token::Semicolon,
        Token::RBrace,
        Token::Else,
        Token::LBrace,
        Token::Return,
        Token::False,
        Token::Semicolon,
        Token::RBrace,
    ];

    for (i, token) in test_tokens.iter().enumerate() {
        let next_token = lexer.next_token();
        println!("{}: expected: {:?}, received: {:?}", i, token, next_token);
        assert_eq!(token, &next_token);
    }
}

#[test]
fn let_statement_scenario() {
    assert_eq!(
        tokenize("let five = 5;".to_string()),
        vec![Token::Let, ident("five"), Token::Assign, integer("5"), Token::Semicolon, Token::Eof]
    );
}

#[test]
fn equality_scenario() {
    assert_eq!(
        tokenize("10 == 10; 10 != 9;".to_string()),
        vec![
            integer("10"),
            Token::Equal,
            integer("10"),
            Token::Semicolon,
            integer("10"),
            Token::NotEqual,
            integer("9"),
            Token::Semicolon,
            Token::Eof,
        ]
    );
}

#[test]
fn unknown_symbol_is_illegal() {
    assert_eq!(tokenize("@".to_string()), vec![Token::Illegal, Token::Eof]);
}

#[test]
fn empty_input_gives_eof() {
    assert_eq!(tokenize(String::new()), vec![Token::Eof]);
    let mut lexer = Lexer::new(String::new());
    assert_eq!(lexer.next_token(), Token::Eof);
}

#[test]
fn eof_repeats_after_the_end() {
    let mut lexer = Lexer::new("x  \n".to_string());
    assert_eq!(lexer.next_token(), ident("x"));
    assert_eq!(lexer.next_token(), Token::Eof);
    assert_eq!(lexer.next_token(), Token::Eof);
    assert_eq!(lexer.next_token(), Token::Eof);
}

#[test]
fn zero_byte_ends_the_input() {
    let mut lexer = Lexer::new("a\0b".to_string());
    assert_eq!(lexer.next_token(), ident("a"));
    assert_eq!(lexer.next_token(), Token::Eof);
    assert_eq!(lexer.next_token(), Token::Eof);
}

#[test]
fn drain_ends_in_one_eof() {
    let input = "let x = @@ 12ab != !;\t\r\n fn";
    let tokens = tokenize(input.to_string());
    assert_eq!(tokens.last(), Some(&Token::Eof));
    assert_eq!(tokens.iter().filter(|t| **t == Token::Eof).count(), 1);
    assert!(tokens.len() <= input.len() + 1);
}

#[test]
fn lexing_twice_gives_the_same_tokens() {
    let input = "let add = fn(x, y) { x + y; }; if (a != b) { return 5x; } ~";
    let mut a = Lexer::new(input.to_string());
    let mut b = Lexer::new(input.to_string());
    loop {
        let ta = a.next_token();
        let tb = b.next_token();
        assert_eq!(ta, tb);
        if ta == Token::Eof {
            break;
        }
    }
    assert_eq!(tokenize(input.to_string()), tokenize(input.to_string()));
}

#[test]
fn whitespace_separates_and_is_no_token() {
    let expected = vec![ident("a"), ident("b"), Token::Eof];
    assert_eq!(tokenize("a b".to_string()), expected);
    assert_eq!(tokenize(" \t\r\n a \t \r\n\n b \n".to_string()), expected);
    assert_eq!(tokenize("ab".to_string()), vec![ident("ab"), Token::Eof]);
    assert_eq!(tokenize("1 2".to_string()), vec![integer("1"), integer("2"), Token::Eof]);
    assert_eq!(tokenize("= =".to_string()), vec![Token::Assign, Token::Assign, Token::Eof]);
    assert_eq!(tokenize("! =".to_string()), vec![Token::Bang, Token::Assign, Token::Eof]);
    assert_eq!(tokenize(" \t\n\r".to_string()), vec![Token::Eof]);
}

#[test]
fn form_feed_is_not_whitespace() {
    assert_eq!(tokenize("a\x0cb".to_string()), vec![ident("a"), Token::Illegal, ident("b"), Token::Eof]);
}

#[test]
fn two_byte_operators() {
    assert_eq!(tokenize("==".to_string()), vec![Token::Equal, Token::Eof]);
    assert_eq!(tokenize("!=".to_string()), vec![Token::NotEqual, Token::Eof]);
    assert_eq!(tokenize("===".to_string()), vec![Token::Equal, Token::Assign, Token::Eof]);
    assert_eq!(tokenize("!==".to_string()), vec![Token::NotEqual, Token::Assign, Token::Eof]);
    assert_eq!(tokenize("=!".to_string()), vec![Token::Assign, Token::Bang, Token::Eof]);
    assert_eq!(tokenize("!!=".to_string()), vec![Token::Bang, Token::NotEqual, Token::Eof]);
    assert_eq!(tokenize("=x".to_string()), vec![Token::Assign, ident("x"), Token::Eof]);
    assert_eq!(tokenize("!5".to_string()), vec![Token::Bang, integer("5"), Token::Eof]);
    assert_eq!(tokenize("=".to_string()), vec![Token::Assign, Token::Eof]);
    assert_eq!(tokenize("!".to_string()), vec![Token::Bang, Token::Eof]);
}

#[test]
fn digits_then_letters_split() {
    assert_eq!(tokenize("5x".to_string()), vec![integer("5"), ident("x"), Token::Eof]);
    assert_eq!(tokenize("123abc456".to_string()), vec![integer("123"), ident("abc"), integer("456"), Token::Eof]);
    assert_eq!(tokenize("10fn".to_string()), vec![integer("10"), Token::Function, Token::Eof]);
    assert_eq!(tokenize("007".to_string()), vec![integer("007"), Token::Eof]);
}

#[test]
fn keyword_table() {
    let cases = [
        ("fn", Token::Function),
        ("let", Token::Let),
        ("true", Token::True),
        ("false", Token::False),
        ("if", Token::If),
        ("else", Token::Else),
        ("return", Token::Return),
    ];
    for (text, token) in cases {
        assert_eq!(tokenize(text.to_string()), vec![token, Token::Eof]);
    }
    for text in ["Fn", "LET", "lets", "f", "iff", "elsewhere", "returns", "truefalse", "x"] {
        assert_eq!(tokenize(text.to_string()), vec![ident(text), Token::Eof]);
    }
}

#[test]
fn every_single_byte_token() {
    assert_eq!(
        tokenize(";(),+{}<>-/*".to_string()),
        vec![
            Token::Semicolon,
            Token::LParen,
            Token::RParen,
            Token::Comma,
            Token::Plus,
            Token::LBrace,
            Token::RBrace,
            Token::Lt,
            Token::Gt,
            Token::Minus,
            Token::Slash,
            Token::Asterisk,
            Token::Eof,
        ]
    );
}

#[test]
fn non_ascii_bytes_are_illegal() {
    assert_eq!(tokenize("é".to_string()), vec![Token::Illegal, Token::Illegal, Token::Eof]);
    assert_eq!(tokenize("a_b".to_string()), vec![ident("a"), Token::Illegal, ident("b"), Token::Eof]);
}

#[test]
fn token_clone_keeps_payload() {
    let t = ident("name");
    assert_eq!(t.clone(), ident("name"));
    assert_eq!(integer("42").clone(), integer("42"));
    assert_eq!(Token::NotEqual.clone(), Token::NotEqual);
}

#[test]
fn whitespace_joins_two_inputs() {
    let pairs = [("ab", "cd"), ("=", "="), ("!", "=x"), ("5", "x"), ("let x", "= 10;"), ("", "fn"), ("if", "")];
    for (s1, s2) in pairs {
        for w in [" ", "\t", "\n\r ", "  \t\t\n"] {
            let joined = format!("{}{}{}", s1, w, s2);
            let mut expected = tokenize(s1.to_string());
            expected.pop();
            expected.extend(tokenize(s2.to_string()));
            assert_eq!(tokenize(joined), expected);
        }
    }
}

#[test]
fn single_word_input() {
    for text in ["return", "Let", "fnx", "iff", "returns", "z"] {
        let mut lexer = Lexer::new(text.to_string());
        let first = lexer.next_token();
        if text == "return" {
            assert_eq!(first, Token::Return);
        } else {
            assert_eq!(first, ident(text));
        }
        assert_eq!(lexer.next_token(), Token::Eof);
    }
}
