use vstd::prelude::*;

use crate::lexer::{
    after_next, in_class, is_digit, is_letter, lemma_run_bounds, lemma_step_bounds, lex, next_token,
    punct_of, run_len, scan, white_space, ws_len,
};
use crate::token::TokenView;

verus! {

/// Lexing terminates: the token sequence of a text is never longer than the
/// text, each token consumes at least one character, and the input counts as
/// exhausted exactly when all that is left is whitespace.
pub proof fn lemma_totality(s: Seq<char>)
    ensures
        lex(s).len() <= s.len(),
        next_token(s) is None <==> ws_len(s) == s.len(),
        match next_token(s) {
            Some((_, n)) => 0 < n <= s.len(),
            None => true,
        },
    decreases s.len(),
{
    lemma_step_bounds(s);
    if let Some((t, n)) = next_token(s) {
        lemma_totality(s.skip(n as int));
    } else {
        assert(ws_len(s) == s.len());
    }
    if ws_len(s) == s.len() {
        assert(s.skip(ws_len(s) as int).len() == 0);
    }
}

/// The same text always yields the same tokens, one step at a time and as a
/// whole.
pub proof fn lemma_determinism(a: Seq<char>, b: Seq<char>)
    requires
        a == b,
    ensures
        next_token(a) == next_token(b),
        after_next(a) == after_next(b),
        lex(a) == lex(b),
{
}

/// Once a request finds the input exhausted, every later request does too,
/// and leaves what is left unchanged.
pub proof fn lemma_exhaustion_is_permanent(s: Seq<char>)
    requires
        next_token(s) is None,
    ensures
        after_next(s).len() == 0,
        next_token(after_next(s)) is None,
        after_next(after_next(s)) == after_next(s),
{
    lemma_step_bounds(s);
    let e = after_next(s);
    assert(e.len() == 0);
    assert(ws_len(e) == 0);
    assert(e.skip(0) =~= e);
}

/// Whitespace in front of a text changes none of its tokens.
pub proof fn lemma_leading_whitespace(w: Seq<char>, s: Seq<char>)
    requires
        forall|i: int| 0 <= i < w.len() ==> white_space(#[trigger] w[i]),
    ensures
        lex(w + s) == lex(s),
{
    lemma_ws_prefix(w, s);
    lemma_step_bounds(s);
    lemma_step_bounds(w + s);
    let k = ws_len(s);
    assert((w + s).skip((w.len() + k) as int) =~= s.skip(k as int));
    if let Some((t, n)) = next_token(s) {
        assert((w + s).skip((w.len() + n) as int) =~= s.skip(n as int));
    }
}

proof fn lemma_ws_prefix(w: Seq<char>, s: Seq<char>)
    requires
        forall|i: int| 0 <= i < w.len() ==> white_space(#[trigger] w[i]),
    ensures
        ws_len(w + s) == w.len() + ws_len(s),
    decreases w.len(),
{
    if w.len() > 0 {
        assert((w + s)[0] == w[0]);
        assert((w + s).drop_first() =~= w.drop_first() + s);
        assert forall|i: int| 0 <= i < w.drop_first().len() implies white_space(
            #[trigger] w.drop_first()[i],
        ) by {
            assert(w.drop_first()[i] == w[i + 1]);
        }
        lemma_ws_prefix(w.drop_first(), s);
    } else {
        assert(w + s =~= s);
    }
}

/// A run of digits or of letters is read as one token that takes the whole
/// run: the character after it, if any, is not of the run's class.
pub proof fn lemma_maximal_munch(s: Seq<char>, letters: bool)
    requires
        s.len() > 0,
        in_class(s[0], letters),
    ensures
        ({
            let n = run_len(s, letters);
            &&& 0 < n <= s.len()
            &&& match scan(s) {
                Some((_, m)) => m == n,
                None => false,
            }
            &&& n < s.len() ==> !in_class(s[n as int], letters)
        }),
{
    lemma_run_bounds(s, letters);
    assert(punct_of(s[0]) is None);
    assert(s[0] != '!' && s[0] != '=');
    if letters {
        assert(!is_digit(s[0]));
    }
}

/// A character that no rule recognises becomes one `Illegal` token and
/// nothing more is consumed, so reading resumes right after it.
pub proof fn lemma_illegal_fallback(s: Seq<char>)
    requires
        s.len() > 0,
        s[0] != '!',
        s[0] != '=',
        punct_of(s[0]) is None,
        !is_digit(s[0]),
        !is_letter(s[0]),
    ensures
        scan(s) == Some((TokenView::Illegal, 1nat)),
{
}

} // verus!
