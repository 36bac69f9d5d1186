use vstd::prelude::*;

verus! {

/// One lexical unit of the language.
#[derive(Debug, PartialEq, Clone)]
pub enum Token {
    Let,
    Function,
    True,
    False,
    If,
    Else,
    Return,
    Equal,
    NotEqual,
    Illegal,
    Assign,
    Plus,
    Comma,
    Semicolon,
    Lparen,
    Rparen,
    Lsquirlybrace,
    Rsquirlybrace,
    Minus,
    Bang,
    Asterisk,
    Slash,
    Lt,
    Gt,
    Identifier(String),
    Int(usize),
}

/// The mathematical value of a token: payloads become a character sequence
/// and a natural number.
pub enum TokenView {
    Let,
    Function,
    True,
    False,
    If,
    Else,
    Return,
    Equal,
    NotEqual,
    Illegal,
    Assign,
    Plus,
    Comma,
    Semicolon,
    Lparen,
    Rparen,
    Lsquirlybrace,
    Rsquirlybrace,
    Minus,
    Bang,
    Asterisk,
    Slash,
    Lt,
    Gt,
    Identifier(Seq<char>),
    Int(nat),
}

impl View for Token {
    type V = TokenView;

    open spec fn view(&self) -> TokenView {
        match self {
            Token::Let => TokenView::Let,
            Token::Function => TokenView::Function,
            Token::True => TokenView::True,
            Token::False => TokenView::False,
            Token::If => TokenView::If,
            Token::Else => TokenView::Else,
            Token::Return => TokenView::Return,
            Token::Equal => TokenView::Equal,
            Token::NotEqual => TokenView::NotEqual,
            Token::Illegal => TokenView::Illegal,
            Token::Assign => TokenView::Assign,
            Token::Plus => TokenView::Plus,
            Token::Comma => TokenView::Comma,
            Token::Semicolon => TokenView::Semicolon,
            Token::Lparen => TokenView::Lparen,
            Token::Rparen => TokenView::Rparen,
            Token::Lsquirlybrace => TokenView::Lsquirlybrace,
            Token::Rsquirlybrace => TokenView::Rsquirlybrace,
            Token::Minus => TokenView::Minus,
            Token::Bang => TokenView::Bang,
            Token::Asterisk => TokenView::Asterisk,
            Token::Slash => TokenView::Slash,
            Token::Lt => TokenView::Lt,
            Token::Gt => TokenView::Gt,
            Token::Identifier(s) => TokenView::Identifier(s@),
            Token::Int(n) => TokenView::Int(*n as nat),
        }
    }
}

/// The keyword that a spelling denotes, if it is one of the seven reserved
/// words (exact, case-sensitive match of the whole spelling).
pub open spec fn keyword_of(w: Seq<char>) -> Option<TokenView> {
    if w == seq!['t', 'r', 'u', 'e'] {
        Some(TokenView::True)
    } else if w == seq!['f', 'a', 'l', 's', 'e'] {
        Some(TokenView::False)
    } else if w == seq!['f', 'n'] {
        Some(TokenView::Function)
    } else if w == seq!['l', 'e', 't'] {
        Some(TokenView::Let)
    } else if w == seq!['i', 'f'] {
        Some(TokenView::If)
    } else if w == seq!['e', 'l', 's', 'e'] {
        Some(TokenView::Else)
    } else if w == seq!['r', 'e', 't', 'u', 'r', 'n'] {
        Some(TokenView::Return)
    } else {
        None
    }
}

/// Whether `w` spells exactly the characters of `k`.
fn spells(w: &Vec<char>, k: &[char]) -> (r: bool)
    ensures
        r == (w@ == k@),
{
    if w.len() != k.len() {
        return false;
    }
    let mut i: usize = 0;
    while i < w.len()
        invariant
            w.len() == k@.len(),
            i <= w.len(),
            forall|j: int| 0 <= j < i ==> w@[j] == k@[j],
        decreases w.len() - i,
    {
        if w[i] != k[i] {
            return false;
        }
        i = i + 1;
    }
    assert(w@ =~= k@);
    true
}

/// Looks a spelling up in the table of reserved words.
pub fn lookup_keyword(w: &Vec<char>) -> (r: Option<Token>)
    ensures
        match r {
            Some(t) => keyword_of(w@) == Some(t@),
            None => keyword_of(w@) is None,
        },
{
    let t = ['t', 'r', 'u', 'e'];
    assert(t@ =~= seq!['t', 'r', 'u', 'e']);
    if spells(w, &t) {
        return Some(Token::True);
    }
    let f = ['f', 'a', 'l', 's', 'e'];
    assert(f@ =~= seq!['f', 'a', 'l', 's', 'e']);
    if spells(w, &f) {
        return Some(Token::False);
    }
    let func = ['f', 'n'];
    assert(func@ =~= seq!['f', 'n']);
    if spells(w, &func) {
        return Some(Token::Function);
    }
    let l = ['l', 'e', 't'];
    assert(l@ =~= seq!['l', 'e', 't']);
    if spells(w, &l) {
        return Some(Token::Let);
    }
    let i = ['i', 'f'];
    assert(i@ =~= seq!['i', 'f']);
    if spells(w, &i) {
        return Some(Token::If);
    }
    let e = ['e', 'l', 's', 'e'];
    assert(e@ =~= seq!['e', 'l', 's', 'e']);
    if spells(w, &e) {
        return Some(Token::Else);
    }
    let ret = ['r', 'e', 't', 'u', 'r', 'n'];
    assert(ret@ =~= seq!['r', 'e', 't', 'u', 'r', 'n']);
    if spells(w, &ret) {
        return Some(Token::Return);
    }
    None
}

} // verus!
