use monkey_lexer::lexer::Lexer;
use monkey_lexer::repl::Repl;
use monkey_lexer::token::{lookup_keyword, Token};

fn tokens(s: &str) -> Vec<Token> {
    Lexer::new(s).into_tokens()
}

fn ident(s: &str) -> Token {
    Token::Identifier(String::from(s))
}

#[test]
fn empty_input_is_exhausted_at_once() {
    assert_eq!(tokens(""), vec![]);
    let mut l = Lexer::new("");
    assert_eq!(l.next(), None);
}

#[test]
fn whitespace_only_input_is_exhausted() {
    assert_eq!(tokens(" \t\n\r  "), vec![]);
}

#[test]
fn exhaustion_is_permanent() {
    let mut l = Lexer::new("a ");
    assert_eq!(l.next(), Some(ident("a")));
    assert_eq!(l.next(), None);
    assert_eq!(l.next(), None);
    assert_eq!(l.next(), None);
}

#[test]
fn same_input_same_tokens() {
    let s = "let x = 10 != y; @";
    assert_eq!(tokens(s), tokens(s));
}

#[test]
fn digit_run_is_one_token() {
    assert_eq!(tokens("12345"), vec![Token::Int(12345)]);
}

#[test]
fn letter_run_is_one_token() {
    assert_eq!(tokens("abc"), vec![ident("abc")]);
}

#[test]
fn digits_end_a_word_and_start_a_number() {
    assert_eq!(tokens("abc12"), vec![ident("abc"), Token::Int(12)]);
    assert_eq!(tokens("12abc"), vec![Token::Int(12), ident("abc")]);
    assert_eq!(tokens("a_b"), vec![ident("a"), Token::Illegal, ident("b")]);
}

#[test]
fn leading_zeros_and_zero() {
    assert_eq!(tokens("0"), vec![Token::Int(0)]);
    assert_eq!(tokens("007"), vec![Token::Int(7)]);
}

#[test]
fn largest_integer() {
    assert_eq!(tokens("18446744073709551615"), vec![Token::Int(usize::MAX)]);
}

#[test]
fn assign_and_equal() {
    assert_eq!(tokens("="), vec![Token::Assign]);
    assert_eq!(tokens("=="), vec![Token::Equal]);
    assert_eq!(tokens("==="), vec![Token::Equal, Token::Assign]);
}

#[test]
fn bang_and_not_equal() {
    assert_eq!(tokens("!"), vec![Token::Bang]);
    assert_eq!(tokens("!="), vec![Token::NotEqual]);
    assert_eq!(tokens("!!"), vec![Token::Bang, Token::Bang]);
}

#[test]
fn failed_lookahead_keeps_the_next_character() {
    assert_eq!(tokens("=a"), vec![Token::Assign, ident("a")]);
    assert_eq!(tokens("!a"), vec![Token::Bang, ident("a")]);
    assert_eq!(tokens("= ="), vec![Token::Assign, Token::Assign]);
}

#[test]
fn keywords_take_precedence() {
    assert_eq!(tokens("let"), vec![Token::Let]);
    assert_eq!(tokens("letx"), vec![ident("letx")]);
    assert_eq!(
        tokens("fn true false if else return let"),
        vec![
            Token::Function,
            Token::True,
            Token::False,
            Token::If,
            Token::Else,
            Token::Return,
            Token::Let,
        ]
    );
    assert_eq!(tokens("Let FN"), vec![ident("Let"), ident("FN")]);
}

#[test]
fn keyword_table_lookup() {
    assert_eq!(lookup_keyword(&vec!['r', 'e', 't', 'u', 'r', 'n']), Some(Token::Return));
    assert_eq!(lookup_keyword(&vec!['f', 'n']), Some(Token::Function));
    assert_eq!(lookup_keyword(&vec!['f']), None);
    assert_eq!(lookup_keyword(&vec!['f', 'n', 'n']), None);
    assert_eq!(lookup_keyword(&vec![]), None);
}

#[test]
fn whitespace_is_transparent() {
    assert_eq!(tokens("=+"), vec![Token::Assign, Token::Plus]);
    assert_eq!(tokens("  =  +  "), vec![Token::Assign, Token::Plus]);
    assert_eq!(tokens("\t=\n+\r\n"), vec![Token::Assign, Token::Plus]);
}

#[test]
fn unicode_whitespace_is_skipped() {
    assert_eq!(tokens("\u{a0}=\u{3000}+"), vec![Token::Assign, Token::Plus]);
}

#[test]
fn all_marks() {
    assert_eq!(
        tokens("*/<>-+,;(){}"),
        vec![
            Token::Asterisk,
            Token::Slash,
            Token::Lt,
            Token::Gt,
            Token::Minus,
            Token::Plus,
            Token::Comma,
            Token::Semicolon,
            Token::Lparen,
            Token::Rparen,
            Token::Lsquirlybrace,
            Token::Rsquirlybrace,
        ]
    );
}

#[test]
fn punctuation_scenario() {
    assert_eq!(
        tokens("=+(){},;"),
        vec![
            Token::Assign,
            Token::Plus,
            Token::Lparen,
            Token::Rparen,
            Token::Lsquirlybrace,
            Token::Rsquirlybrace,
            Token::Comma,
            Token::Semicolon,
        ]
    );
}

#[test]
fn comparison_scenario() {
    assert_eq!(
        tokens("10 == 10; 10 != 9;"),
        vec![
            Token::Int(10),
            Token::Equal,
            Token::Int(10),
            Token::Semicolon,
            Token::Int(10),
            Token::NotEqual,
            Token::Int(9),
            Token::Semicolon,
        ]
    );
}

#[test]
fn illegal_character_then_resume() {
    assert_eq!(
        tokens("a@1"),
        vec![ident("a"), Token::Illegal, Token::Int(1)]
    );
    assert_eq!(tokens("@@"), vec![Token::Illegal, Token::Illegal]);
    assert_eq!(tokens("é"), vec![Token::Illegal]);
}

#[test]
fn read_token_does_not_skip_whitespace() {
    let mut l = Lexer::new(" x");
    assert_eq!(l.read_token(), Some(Token::Illegal));
    assert_eq!(l.read_token(), Some(ident("x")));
    assert_eq!(l.read_token(), None);
}

#[test]
fn next_reads_one_token_at_a_time() {
    let mut l = Lexer::new("  ab 12");
    assert_eq!(l.next(), Some(ident("ab")));
    assert_eq!(l.next(), Some(Token::Int(12)));
    assert_eq!(l.next(), None);
}

#[test]
fn repl_line_gives_the_tokens() {
    let r = Repl::new();
    assert_eq!(
        r.line("let x = 5;"),
        vec![Token::Let, ident("x"), Token::Assign, Token::Int(5), Token::Semicolon]
    );
    assert_eq!(r.line(""), vec![]);
}

#[test]
fn try_new_refuses_an_integer_too_large() {
    assert!(Lexer::try_new("18446744073709551616").is_none());
    assert!(Lexer::try_new("let x = 99999999999999999999;").is_none());
}

#[test]
fn try_new_accepts_what_fits() {
    let l = Lexer::try_new("x 18446744073709551615 0001").unwrap();
    assert_eq!(
        l.into_tokens(),
        vec![ident("x"), Token::Int(usize::MAX), Token::Int(1)]
    );
    assert!(Lexer::try_new("").is_some());
}

#[test]
fn every_white_space_character_is_skipped() {
    let ws = "\u{9}\u{a}\u{b}\u{c}\u{d} \u{85}\u{a0}\u{1680}\u{2000}\u{2005}\u{200a}\u{2028}\u{2029}\u{202f}\u{205f}\u{3000}";
    assert_eq!(tokens(ws), vec![]);
    assert_eq!(tokens("\u{200b}"), vec![Token::Illegal]);
    assert_eq!(tokens("\u{1f}"), vec![Token::Illegal]);
}
