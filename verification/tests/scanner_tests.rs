use dynac::scanner::{Scanner, TokenType};

#[test]
fn test_check_keyword() {
    let mut scanner = Scanner::new("this is for if fun  fun1 forfor %%dadf");
    let mut token = scanner.scan_token();
    assert!(token.token_type == TokenType::This);
    assert!(token.value == "this");

    token = scanner.scan_token();
    assert!(token.token_type == TokenType::Identifier);
    assert!(token.value == "is");

    token = scanner.scan_token();
    assert!(token.token_type == TokenType::For);
    assert!(token.value == "for");

    token = scanner.scan_token();
    assert!(token.token_type == TokenType::If);
    assert!(token.value == "if");

    token = scanner.scan_token();
    assert!(token.token_type == TokenType::Fun);
    assert!(token.value == "fun");

    token = scanner.scan_token();
    assert!(token.token_type == TokenType::Identifier);
    assert!(token.value == "fun1");

    token = scanner.scan_token();
    assert!(token.token_type == TokenType::Identifier);
    assert!(token.value == "forfor");

    token = scanner.scan_token();
    assert!(token.token_type == TokenType::Error);
}

#[test]
fn test_scan_token() {
    let source = "var a = 1;
        var b = \"this is a string\";
        while(true) {
            if (a == 1) {
                print(a);
            }

            var c = a and 1 or 2;
            for (var d = 1; d <= 5; ++d) {
                a = a + 1;
            }
        }
        fun test() {
            var a = 1 + 2 * 3 / 4 - -5;
            if a > 1 {
                a = -a;
            } else {
                a = a - 1;
            }
            return;
        }
        ";
    let mut scanner = Scanner::new(source);
    loop {
        let token = scanner.scan_token();
        println!("token is : {:?}", token);
        if token.token_type == TokenType::Error {
            assert!(false);
        }
        if token.token_type == TokenType::Eof {
            break;
        }
    }
}

fn scan_all(source: &str) -> Vec<(TokenType, String, usize)> {
    let mut scanner = Scanner::new(source);
    let mut out = Vec::new();
    loop {
        let token = scanner.scan_token();
        out.push((token.token_type, token.value.to_string(), token.line));
        if token.token_type == TokenType::Eof {
            break;
        }
    }
    out
}

#[test]
fn scans_numbers_with_and_without_fraction() {
    let toks = scan_all("12 3.75 4. .5");
    assert_eq!(toks[0], (TokenType::Number, "12".to_string(), 1));
    assert_eq!(toks[1], (TokenType::Number, "3.75".to_string(), 1));
    assert_eq!(toks[2], (TokenType::Number, "4".to_string(), 1));
    assert_eq!(toks[3], (TokenType::Dot, ".".to_string(), 1));
    assert_eq!(toks[4], (TokenType::Dot, ".".to_string(), 1));
    assert_eq!(toks[5], (TokenType::Number, "5".to_string(), 1));
    assert_eq!(toks[6].0, TokenType::Eof);
}

#[test]
fn scans_two_character_operators() {
    let toks = scan_all("! != = == < <= > >=");
    let types: Vec<TokenType> = toks.iter().map(|t| t.0).collect();
    assert_eq!(
        types,
        vec![
            TokenType::Bang,
            TokenType::BangEqual,
            TokenType::Equal,
            TokenType::EqualEqual,
            TokenType::Less,
            TokenType::LessEqual,
            TokenType::Greater,
            TokenType::GreaterEqual,
            TokenType::Eof
        ]
    );
}

#[test]
fn strings_count_lines_and_keep_quotes() {
    let toks = scan_all("\"a\nb\" x");
    assert_eq!(toks[0], (TokenType::String, "\"a\nb\"".to_string(), 2));
    assert_eq!(toks[1], (TokenType::Identifier, "x".to_string(), 2));
}

#[test]
fn unterminated_string_runs_to_end() {
    let toks = scan_all("\"abc");
    assert_eq!(toks[0], (TokenType::String, "\"abc".to_string(), 1));
    assert_eq!(toks[1].0, TokenType::Eof);
}

#[test]
fn comments_and_whitespace_are_skipped() {
    let toks = scan_all("  // a comment\n\t+ // another\n-");
    assert_eq!(toks[0], (TokenType::Plus, "+".to_string(), 1));
    assert_eq!(toks[1], (TokenType::Minus, "-".to_string(), 1));
    assert_eq!(toks[2], (TokenType::Eof, "".to_string(), 1));
}

#[test]
fn unexpected_character_is_an_error_token() {
    let toks = scan_all("@a");
    assert_eq!(toks[0], (TokenType::Error, "Unexpected character.".to_string(), 1));
    assert_eq!(toks[1], (TokenType::Identifier, "a".to_string(), 1));
}

#[test]
fn all_keywords_are_recognised() {
    let toks = scan_all(
        "and class else if nil or print return super var while for false fun this true fn struct trait impl new",
    );
    let types: Vec<TokenType> = toks.iter().map(|t| t.0).collect();
    assert_eq!(
        types,
        vec![
            TokenType::And,
            TokenType::Class,
            TokenType::Else,
            TokenType::If,
            TokenType::Nil,
            TokenType::Or,
            TokenType::Print,
            TokenType::Return,
            TokenType::Super,
            TokenType::Var,
            TokenType::While,
            TokenType::For,
            TokenType::False,
            TokenType::Fun,
            TokenType::This,
            TokenType::True,
            TokenType::Fn,
            TokenType::Struct,
            TokenType::Trait,
            TokenType::Impl,
            TokenType::New,
            TokenType::Eof
        ]
    );
}

#[test]
fn keyword_prefixes_and_extensions_are_identifiers() {
    let toks = scan_all("an andy _if f news");
    for t in &toks[..5] {
        assert_eq!(t.0, TokenType::Identifier);
    }
}

#[test]
fn eof_repeats_at_end() {
    let mut scanner = Scanner::new("x");
    assert_eq!(scanner.scan_token().token_type, TokenType::Identifier);
    assert_eq!(scanner.scan_token().token_type, TokenType::Eof);
    assert_eq!(scanner.scan_token().token_type, TokenType::Eof);
}
