use vstd::prelude::*;

use crate::lexer::{ints_fit, lex, views, Lexer};
use crate::token::Token;

verus! {

/// Turns one line of text at a time into its tokens. It keeps no state
/// between lines.
pub struct Repl {}

impl Repl {
    pub fn new() -> Repl {
        Repl {  }
    }

    /// The tokens of `line`, in order, read by a fresh lexer.
    pub fn line(&self, line: &str) -> (r: Vec<Token>)
        requires
            ints_fit(line@),
        ensures
            views(r@) == lex(line@),
    {
        let lex = Lexer::new(line);
        lex.into_tokens()
    }
}

} // verus!
