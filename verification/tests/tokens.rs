//! The scanner: character classes, runs, and tokens.

use exprc::token::{split_to_raw_tokens, tokenize, Bracket, CharType, KeywordType, Token, TokenType};

fn token(t: TokenType, s: &str) -> Token {
    Token { t, s: s.to_string() }
}

fn raw(class: CharType, s: &str) -> (CharType, String) {
    (class, s.to_string())
}

#[test]
fn classes_of_characters() {
    assert_eq!(CharType::from(&'('), CharType::Bracket);
    assert_eq!(CharType::from(&')'), CharType::Bracket);
    for c in [' ', '\t', '\n', '\x0C', '\r'] {
        assert_eq!(CharType::from(&c), CharType::WhiteSpace);
    }
    for c in ['0', '5', '9'] {
        assert_eq!(CharType::from(&c), CharType::Digit);
    }
    for c in ['a', 'm', 'z', 'A', 'M', 'Z'] {
        assert_eq!(CharType::from(&c), CharType::Alphabetic);
    }
    for c in ['!', '*', '+', '-', '/', ':', ';', '=', '@', '[', ']', '_', '`', '{', '}', '~'] {
        assert_eq!(CharType::from(&c), CharType::Punctuation);
    }
    for c in ['\0', '\x0B', '\x1F', '\x7F', '\u{80}', '\u{a0}', 'é', '１', '\u{10FFFF}'] {
        assert_eq!(CharType::from(&c), CharType::Unknown);
    }
}

#[test]
fn classes_agree_with_the_ascii_predicates() {
    for code in 0u32..0x300 {
        let c = char::from_u32(code).unwrap();
        let expected = if c == '(' || c == ')' {
            CharType::Bracket
        } else if c.is_ascii_whitespace() {
            CharType::WhiteSpace
        } else if c.is_ascii_digit() {
            CharType::Digit
        } else if c.is_ascii_alphabetic() {
            CharType::Alphabetic
        } else if c.is_ascii_punctuation() {
            CharType::Punctuation
        } else {
            CharType::Unknown
        };
        assert_eq!(CharType::from(&c), expected, "{:?}", c);
    }
}

#[test]
fn runs_of_one_class_stay_together() {
    assert_eq!(
        split_to_raw_tokens("ab  12+=\u{e9}\u{e9}"),
        vec![
            raw(CharType::Alphabetic, "ab"),
            raw(CharType::WhiteSpace, "  "),
            raw(CharType::Digit, "12"),
            raw(CharType::Punctuation, "+="),
            raw(CharType::Unknown, "\u{e9}\u{e9}"),
        ]
    );
}

#[test]
fn brackets_are_runs_of_their_own() {
    assert_eq!(
        split_to_raw_tokens("(()a)"),
        vec![
            raw(CharType::Bracket, "("),
            raw(CharType::Bracket, "("),
            raw(CharType::Bracket, ")"),
            raw(CharType::Alphabetic, "a"),
            raw(CharType::Bracket, ")"),
        ]
    );
}

#[test]
fn runs_of_nothing_and_of_one_character() {
    assert_eq!(split_to_raw_tokens(""), vec![]);
    assert_eq!(split_to_raw_tokens("x"), vec![raw(CharType::Alphabetic, "x")]);
    assert_eq!(split_to_raw_tokens(")"), vec![raw(CharType::Bracket, ")")]);
}

#[test]
fn tokens_of_a_statement() {
    assert_eq!(
        tokenize("return  12 + 34 - 5 "),
        vec![
            token(TokenType::Keyword(KeywordType::Return), "return"),
            token(TokenType::Number, "12"),
            token(TokenType::Operator, "+"),
            token(TokenType::Number, "34"),
            token(TokenType::Operator, "-"),
            token(TokenType::Number, "5"),
        ]
    );
}

#[test]
fn tokens_without_spaces() {
    assert_eq!(
        tokenize("a=(1+2)*3;if"),
        vec![
            token(TokenType::Ident, "a"),
            token(TokenType::Operator, "="),
            token(TokenType::Paren(Bracket::Begin), "("),
            token(TokenType::Number, "1"),
            token(TokenType::Operator, "+"),
            token(TokenType::Number, "2"),
            token(TokenType::Paren(Bracket::End), ")"),
            token(TokenType::Operator, "*"),
            token(TokenType::Number, "3"),
            token(TokenType::Operator, ";"),
            token(TokenType::Keyword(KeywordType::If), "if"),
        ]
    );
}

#[test]
fn keywords_are_whole_words() {
    assert_eq!(tokenize("returns"), vec![token(TokenType::Ident, "returns")]);
    assert_eq!(tokenize("Return"), vec![token(TokenType::Ident, "Return")]);
    assert_eq!(tokenize("iff"), vec![token(TokenType::Ident, "iff")]);
    assert_eq!(tokenize("i"), vec![token(TokenType::Ident, "i")]);
    assert_eq!(
        tokenize("return1"),
        vec![token(TokenType::Keyword(KeywordType::Return), "return"), token(TokenType::Number, "1")]
    );
}

#[test]
fn adjacent_punctuation_is_one_operator() {
    assert_eq!(tokenize("+-"), vec![token(TokenType::Operator, "+-")]);
    assert_eq!(
        tokenize("a==b"),
        vec![
            token(TokenType::Ident, "a"),
            token(TokenType::Operator, "=="),
            token(TokenType::Ident, "b"),
        ]
    );
    assert_eq!(
        tokenize(");"),
        vec![token(TokenType::Paren(Bracket::End), ")"), token(TokenType::Operator, ";")]
    );
}

#[test]
fn white_space_and_unknown_characters_only_separate() {
    assert_eq!(tokenize(""), vec![]);
    assert_eq!(tokenize(" \t\r\n"), vec![]);
    assert_eq!(tokenize("\u{e9}\u{3042}"), vec![]);
    assert_eq!(
        tokenize("1\u{e9}2"),
        vec![token(TokenType::Number, "1"), token(TokenType::Number, "2")]
    );
    assert_eq!(
        tokenize("12 3"),
        vec![token(TokenType::Number, "12"), token(TokenType::Number, "3")]
    );
}

#[test]
fn text_after_characters_of_several_bytes_is_cut_rightly() {
    assert_eq!(
        tokenize("\u{3042}\u{1F600} abc \u{e9}42"),
        vec![token(TokenType::Ident, "abc"), token(TokenType::Number, "42")]
    );
}

#[test]
fn tokens_written_with_spaces_are_read_back() {
    let tokens = vec![
        token(TokenType::Ident, "total"),
        token(TokenType::Operator, "="),
        token(TokenType::Paren(Bracket::Begin), "("),
        token(TokenType::Number, "12"),
        token(TokenType::Operator, "+"),
        token(TokenType::Ident, "x"),
        token(TokenType::Paren(Bracket::End), ")"),
        token(TokenType::Operator, "/"),
        token(TokenType::Number, "007"),
        token(TokenType::Operator, ";"),
        token(TokenType::Keyword(KeywordType::Return), "return"),
        token(TokenType::Ident, "total"),
        token(TokenType::Operator, "<="),
        token(TokenType::Keyword(KeywordType::If), "if"),
    ];
    let mut text = String::new();
    for t in &tokens {
        text.push_str(&t.s);
        text.push(' ');
    }
    assert_eq!(tokenize(&text), tokens);
}

#[test]
fn blank_margins_change_nothing() {
    let plain = tokenize("a = 1 + 2");
    assert_eq!(tokenize("  a = 1 + 2"), plain);
    assert_eq!(tokenize("a = 1 + 2 \n"), plain);
    assert_eq!(tokenize("\u{a0}\t\u{2003}a = 1 + 2\r\n\u{0B}\u{85}"), plain);
    let padded = "\u{2003} \u{a0}a = 1 + 2 \u{3000}\n";
    assert_eq!(tokenize(padded.trim()), plain);
    assert_eq!(tokenize(padded), plain);
}
