use lexer::{classify, classify_word, scan, tokenize, ClassifiedChar, Numeral, Token, TokenType};

fn tok(ttype: TokenType, start: usize, end: usize) -> Token {
    Token { ttype, start, end }
}

fn slice(input: &str, t: &Token) -> String {
    input.chars().skip(t.start).take(t.end - t.start).collect()
}

fn value(input: &str, t: &Token) -> f64 {
    match t.ttype {
        TokenType::Number(Numeral::Integer(n)) => n as f64,
        TokenType::Number(Numeral::Decimal) => slice(input, t).parse::<f64>().unwrap(),
        _ => panic!("not a number"),
    }
}

fn kinds(input: &str) -> Vec<TokenType> {
    tokenize(input).iter().map(|t| t.ttype).collect()
}

#[test]
fn whitespace_only_input_has_no_tokens() {
    assert!(tokenize("   ").is_empty());
    assert!(tokenize(" \t\n\r  ").is_empty());
    assert!(tokenize("\u{A0}\u{2003}\u{3000}").is_empty());
}

#[test]
fn empty_input_has_no_tokens() {
    assert!(tokenize("").is_empty());
}

#[test]
fn sum_of_two_numbers() {
    let input = "1 + 2";
    let toks = tokenize(input);
    assert_eq!(
        toks,
        vec![
            tok(TokenType::Number(Numeral::Decimal), 0, 1),
            tok(TokenType::Plus, 2, 3),
            tok(TokenType::Number(Numeral::Decimal), 4, 5),
        ]
    );
    assert_eq!(value(input, &toks[0]), 1.0);
    assert_eq!(value(input, &toks[2]), 2.0);
}

#[test]
fn hex_and_binary_literals() {
    let toks = tokenize("0x1A");
    assert_eq!(toks, vec![tok(TokenType::Number(Numeral::Integer(26)), 0, 4)]);
    assert_eq!(value("0x1A", &toks[0]), 26.0);
    let toks = tokenize("0b101");
    assert_eq!(toks, vec![tok(TokenType::Number(Numeral::Integer(5)), 0, 5)]);
    assert_eq!(value("0b101", &toks[0]), 5.0);
    assert_eq!(kinds("0XfF 0B11"), vec![
        TokenType::Number(Numeral::Integer(255)),
        TokenType::Number(Numeral::Integer(3)),
    ]);
}

#[test]
fn invalid_hex_digits_are_unrecognized() {
    assert_eq!(tokenize("0xZZ"), vec![tok(TokenType::Unrecognized, 0, 4)]);
}

#[test]
fn bad_prefixed_literals_are_unrecognized() {
    assert_eq!(kinds("0x"), vec![TokenType::Unrecognized]);
    assert_eq!(kinds("0b"), vec![TokenType::Unrecognized]);
    assert_eq!(kinds("0b102"), vec![TokenType::Unrecognized]);
    assert_eq!(kinds("0x1_0"), vec![TokenType::Unrecognized]);
    assert_eq!(kinds("0x10000000000000000"), vec![TokenType::Unrecognized]);
    assert_eq!(kinds("0xFFFFFFFFFFFFFFFF"), vec![TokenType::Number(Numeral::Integer(u64::MAX))]);
}

#[test]
fn less_than_pairs_with_greater_variants() {
    assert_eq!(tokenize("<="), vec![tok(TokenType::GreaterEqual, 0, 2)]);
    assert_eq!(tokenize("<"), vec![tok(TokenType::Greater, 0, 1)]);
    assert_eq!(tokenize(">="), vec![tok(TokenType::LessEqual, 0, 2)]);
    assert_eq!(tokenize(">"), vec![tok(TokenType::Less, 0, 1)]);
}

#[test]
fn one_and_two_character_operators() {
    assert_eq!(
        kinds("! != = == < = ="),
        vec![
            TokenType::Bang,
            TokenType::BangEqual,
            TokenType::Equal,
            TokenType::DoubleEqual,
            TokenType::Greater,
            TokenType::Equal,
            TokenType::Equal,
        ]
    );
    assert_eq!(tokenize("==="), vec![tok(TokenType::DoubleEqual, 0, 2), tok(TokenType::Equal, 2, 3)]);
}

#[test]
fn punctuation() {
    assert_eq!(
        kinds("()[]{},.+-*/;"),
        vec![
            TokenType::LeftParen,
            TokenType::RightParen,
            TokenType::LeftSquare,
            TokenType::RightSquare,
            TokenType::LeftBrace,
            TokenType::RightBrace,
            TokenType::Comma,
            TokenType::Dot,
            TokenType::Plus,
            TokenType::Minus,
            TokenType::Star,
            TokenType::Slash,
            TokenType::Semicolon,
        ]
    );
}

#[test]
fn string_literals() {
    assert_eq!(tokenize("\"abc\""), vec![tok(TokenType::String, 0, 5)]);
    assert_eq!(tokenize("\"abc"), vec![tok(TokenType::String, 0, 4)]);
}

#[test]
fn string_escapes_are_skipped() {
    let input = "\"a\\\"b\" x";
    assert_eq!(tokenize(input), vec![tok(TokenType::String, 0, 6), tok(TokenType::Ident, 7, 8)]);
    assert_eq!(tokenize("\"a\\"), vec![tok(TokenType::String, 0, 3)]);
    assert_eq!(tokenize("\"\\\\\""), vec![tok(TokenType::String, 0, 4)]);
}

#[test]
fn tokens_rebuild_the_input() {
    for input in ["  let x = 0x1F;\t\"s\\\"t\" @ é_1 ", "a+b", "", "   ", "\"open", "if (x >= 1e5) { print x; }"] {
        let toks = tokenize(input);
        let chars: Vec<char> = input.chars().collect();
        let mut rebuilt = String::new();
        let mut pos = 0;
        for t in &toks {
            assert!(t.start < t.end && t.end <= chars.len());
            assert!(pos <= t.start);
            for c in &chars[pos..t.start] {
                assert!(c.is_whitespace());
                rebuilt.push(*c);
            }
            rebuilt.push_str(&slice(input, t));
            pos = t.end;
        }
        for c in &chars[pos..] {
            assert!(c.is_whitespace());
            rebuilt.push(*c);
        }
        assert_eq!(rebuilt, input);
    }
}

#[test]
fn keywords_and_identifiers() {
    assert_eq!(kinds("struct self true"), vec![TokenType::Struct, TokenType::Self_, TokenType::True]);
    assert_eq!(kinds("structure"), vec![TokenType::Ident]);
    assert_eq!(
        kinds("and or false fn if else nil print return super let while for"),
        vec![
            TokenType::And,
            TokenType::Or,
            TokenType::False,
            TokenType::Fn,
            TokenType::If,
            TokenType::Else,
            TokenType::Nil,
            TokenType::Print,
            TokenType::Return,
            TokenType::Super,
            TokenType::Let,
            TokenType::While,
            TokenType::For,
        ]
    );
    assert_eq!(kinds("Struct x_1 _y"), vec![TokenType::Ident, TokenType::Ident, TokenType::Unrecognized, TokenType::Ident]);
}

#[test]
fn decimal_literals() {
    let input = "12 1e5 2E10 inf Infinity NaN";
    let toks = tokenize(input);
    assert!(toks.iter().all(|t| t.ttype == TokenType::Number(Numeral::Decimal)));
    assert_eq!(value(input, &toks[0]), 12.0);
    assert_eq!(value(input, &toks[1]), 100000.0);
    assert_eq!(value(input, &toks[2]), 2e10);
    assert!(value(input, &toks[3]).is_infinite());
    assert!(value(input, &toks[5]).is_nan());
    assert_eq!(kinds("1e 1_000 1e5x 12a infin"), vec![TokenType::Ident; 5]);
}

#[test]
fn numbers_split_at_dots() {
    assert_eq!(
        tokenize("1.5"),
        vec![
            tok(TokenType::Number(Numeral::Decimal), 0, 1),
            tok(TokenType::Dot, 1, 2),
            tok(TokenType::Number(Numeral::Decimal), 2, 3),
        ]
    );
}

#[test]
fn unrecognized_characters() {
    assert_eq!(tokenize("@ #"), vec![tok(TokenType::Unrecognized, 0, 1), tok(TokenType::Unrecognized, 2, 3)]);
}

#[test]
fn offsets_count_characters() {
    let input = "é + 藏";
    assert_eq!(
        tokenize(input),
        vec![tok(TokenType::Ident, 0, 1), tok(TokenType::Plus, 2, 3), tok(TokenType::Ident, 4, 5)]
    );
    assert_eq!(tokenize("٣"), vec![tok(TokenType::Ident, 0, 1)]);
}

#[test]
fn classify_reports_character_classes() {
    let text = classify("a \u{A0}_藏");
    assert_eq!(
        text,
        vec![
            ClassifiedChar { ch: 'a', whitespace: false, alphanumeric: true },
            ClassifiedChar { ch: ' ', whitespace: true, alphanumeric: false },
            ClassifiedChar { ch: '\u{A0}', whitespace: true, alphanumeric: false },
            ClassifiedChar { ch: '_', whitespace: false, alphanumeric: false },
            ClassifiedChar { ch: '藏', whitespace: false, alphanumeric: true },
        ]
    );
}

#[test]
fn scan_follows_given_classes() {
    let text = vec![
        ClassifiedChar { ch: 'x', whitespace: true, alphanumeric: false },
        ClassifiedChar { ch: 'y', whitespace: false, alphanumeric: true },
        ClassifiedChar { ch: 'z', whitespace: false, alphanumeric: false },
    ];
    assert_eq!(scan(&text), vec![tok(TokenType::Ident, 1, 2), tok(TokenType::Unrecognized, 2, 3)]);
}

#[test]
fn classify_word_kinds() {
    assert_eq!(classify_word(&vec!['0', 'x', '1', 'A']), TokenType::Number(Numeral::Integer(26)));
    assert_eq!(classify_word(&vec!['w', 'h', 'i', 'l', 'e']), TokenType::While);
    assert_eq!(classify_word(&vec!['n', 'A', 'n']), TokenType::Number(Numeral::Decimal));
}
