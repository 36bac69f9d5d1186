use vstd::prelude::*;

use crate::token::{keyword_of, lookup_keyword, Token, TokenView};

verus! {

/// Unicode's White_Space property: tab to carriage return, space, next line,
/// no-break space, the Ogham space mark, the spaces from en quad to hair
/// space, the line and paragraph separators, the narrow no-break space, the
/// medium mathematical space and the ideographic space.
pub open spec fn white_space(c: char) -> bool {
    ||| '\u{9}' <= c <= '\u{d}'
    ||| c == ' '
    ||| c == '\u{85}'
    ||| c == '\u{a0}'
    ||| c == '\u{1680}'
    ||| '\u{2000}' <= c <= '\u{200a}'
    ||| c == '\u{2028}'
    ||| c == '\u{2029}'
    ||| c == '\u{202f}'
    ||| c == '\u{205f}'
    ||| c == '\u{3000}'
}

/// Relies on `char::is_whitespace`: true exactly for the characters with
/// Unicode's White_Space property.
#[verifier::external_body]
fn is_white_space(c: char) -> (r: bool)
    ensures
        r == white_space(c),
{
    c.is_whitespace()
}

/// Relies on `FromIterator<char>` for `String`: the string holds the given
/// characters in order.
#[verifier::external_body]
fn collect_string(chars: &Vec<char>) -> (r: String)
    ensures
        r@ == chars@,
{
    chars.iter().collect::<String>()
}

/// A decimal digit, `0` to `9`.
pub open spec fn is_digit(c: char) -> bool {
    '0' <= c <= '9'
}

/// An ASCII letter, `a` to `z` or `A` to `Z`.
pub open spec fn is_letter(c: char) -> bool {
    ('a' <= c <= 'z') || ('A' <= c <= 'Z')
}

/// Membership in the class of a run: letters when `letters`, else digits.
pub open spec fn in_class(c: char, letters: bool) -> bool {
    if letters {
        is_letter(c)
    } else {
        is_digit(c)
    }
}

/// Length of the longest prefix of `s` whose characters are all in the class.
pub open spec fn run_len(s: Seq<char>, letters: bool) -> nat
    decreases s.len(),
{
    if s.len() > 0 && in_class(s[0], letters) {
        1 + run_len(s.drop_first(), letters)
    } else {
        0
    }
}

/// Number of whitespace characters at the front of `s`.
pub open spec fn ws_len(s: Seq<char>) -> nat
    decreases s.len(),
{
    if s.len() > 0 && white_space(s[0]) {
        1 + ws_len(s.drop_first())
    } else {
        0
    }
}

/// Every character of `s` is a decimal digit.
pub open spec fn all_digits(s: Seq<char>) -> bool {
    forall|i: int| 0 <= i < s.len() ==> is_digit(#[trigger] s[i])
}

/// The value of one decimal digit.
pub open spec fn digit_value(c: char) -> nat {
    ((c as u32) - ('0' as u32)) as nat
}

/// The value of a run of decimal digits, most significant first.
pub open spec fn digits_value(s: Seq<char>) -> nat
    decreases s.len(),
{
    if s.len() == 0 {
        0
    } else {
        digits_value(s.drop_last()) * 10 + digit_value(s.last())
    }
}

/// Every run of decimal digits in `s` denotes a value that fits in `usize`.
pub open spec fn ints_fit(s: Seq<char>) -> bool {
    forall|i: int, j: int|
        0 <= i <= j <= s.len() && all_digits(s.subrange(i, j)) ==> #[trigger] digits_value(
            s.subrange(i, j),
        ) <= usize::MAX
}

/// The token of a one-character mark that needs no lookahead.
pub open spec fn punct_of(c: char) -> Option<TokenView> {
    if c == '*' {
        Some(TokenView::Asterisk)
    } else if c == '/' {
        Some(TokenView::Slash)
    } else if c == '>' {
        Some(TokenView::Gt)
    } else if c == '<' {
        Some(TokenView::Lt)
    } else if c == '-' {
        Some(TokenView::Minus)
    } else if c == '+' {
        Some(TokenView::Plus)
    } else if c == ',' {
        Some(TokenView::Comma)
    } else if c == ';' {
        Some(TokenView::Semicolon)
    } else if c == '(' {
        Some(TokenView::Lparen)
    } else if c == ')' {
        Some(TokenView::Rparen)
    } else if c == '{' {
        Some(TokenView::Lsquirlybrace)
    } else if c == '}' {
        Some(TokenView::Rsquirlybrace)
    } else {
        None
    }
}

/// The token of a run of letters: its keyword, or else an identifier.
pub open spec fn word_token(w: Seq<char>) -> TokenView {
    match keyword_of(w) {
        Some(k) => k,
        None => TokenView::Identifier(w),
    }
}

/// The token at the very front of `s` (no whitespace skipped) and the number
/// of characters it consumes; `None` when `s` is empty.
pub open spec fn scan(s: Seq<char>) -> Option<(TokenView, nat)> {
    if s.len() == 0 {
        None
    } else {
        let c = s[0];
        if c == '!' {
            if s.len() >= 2 && s[1] == '=' {
                Some((TokenView::NotEqual, 2))
            } else {
                Some((TokenView::Bang, 1))
            }
        } else if c == '=' {
            if s.len() >= 2 && s[1] == '=' {
                Some((TokenView::Equal, 2))
            } else {
                Some((TokenView::Assign, 1))
            }
        } else if punct_of(c) is Some {
            Some((punct_of(c)->0, 1))
        } else if is_digit(c) {
            let n = run_len(s, false);
            Some((TokenView::Int(digits_value(s.take(n as int))), n))
        } else if is_letter(c) {
            let n = run_len(s, true);
            Some((word_token(s.take(n as int)), n))
        } else {
            Some((TokenView::Illegal, 1))
        }
    }
}

/// The next token of `s` after leading whitespace, and the number of
/// characters consumed in all; `None` when only whitespace is left.
pub open spec fn next_token(s: Seq<char>) -> Option<(TokenView, nat)> {
    let k = ws_len(s);
    match scan(s.skip(k as int)) {
        Some((t, n)) => Some((t, k + n)),
        None => None,
    }
}

/// What is left of `s` after one request for a token.
pub open spec fn after_next(s: Seq<char>) -> Seq<char> {
    match next_token(s) {
        Some((_, n)) => s.skip(n as int),
        None => s.skip(ws_len(s) as int),
    }
}

/// The whole token sequence of `s`.
pub open spec fn lex(s: Seq<char>) -> Seq<TokenView>
    decreases s.len(),
{
    match next_token(s) {
        Some((t, n)) => if 0 < n <= s.len() {
            seq![t] + lex(s.skip(n as int))
        } else {
            seq![]
        },
        None => seq![],
    }
}

/// The views of a sequence of tokens.
pub open spec fn views(ts: Seq<Token>) -> Seq<TokenView> {
    ts.map_values(|t: Token| t@)
}

/// The characters of `code`, in order.
fn chars_of(code: &str) -> (r: Vec<char>)
    ensures
        r@ == code@,
{
    let mut out: Vec<char> = Vec::new();
    for c in it: code.chars()
        invariant
            it.seq() == code@,
            out@ == it.seq().take(it.index() as int),
    {
        out.push(c);
    }
    assert(out@ =~= code@);
    out
}

/// Removing the first character of a run shortens it by one.
proof fn lemma_run_skip(s: Seq<char>, k: int, letters: bool)
    requires
        0 <= k < s.len(),
        in_class(s[k], letters),
    ensures
        run_len(s.skip(k), letters) == 1 + run_len(s.skip(k + 1), letters),
{
    assert(s.skip(k).drop_first() =~= s.skip(k + 1));
}

/// Removing the first character of a whitespace prefix shortens it by one.
proof fn lemma_ws_skip(s: Seq<char>, k: int)
    requires
        0 <= k < s.len(),
        white_space(s[k]),
    ensures
        ws_len(s.skip(k)) == 1 + ws_len(s.skip(k + 1)),
{
    assert(s.skip(k).drop_first() =~= s.skip(k + 1));
}

/// A run never exceeds the sequence, its characters are all of the class,
/// and the character after it is not.
pub proof fn lemma_run_bounds(s: Seq<char>, letters: bool)
    ensures
        run_len(s, letters) <= s.len(),
        run_len(s, letters) < s.len() ==> !in_class(s[run_len(s, letters) as int], letters),
        forall|j: int| 0 <= j < run_len(s, letters) ==> in_class(#[trigger] s[j], letters),
    decreases s.len(),
{
    if s.len() > 0 && in_class(s[0], letters) {
        lemma_run_bounds(s.drop_first(), letters);
        assert forall|j: int| 0 <= j < run_len(s, letters) implies in_class(
            #[trigger] s[j],
            letters,
        ) by {
            if j > 0 {
                assert(s[j] == s.drop_first()[j - 1]);
            }
        }
    }
}

/// A whitespace prefix never exceeds the sequence, and the character after
/// it is not whitespace.
proof fn lemma_ws_bounds(s: Seq<char>)
    ensures
        ws_len(s) <= s.len(),
        ws_len(s) < s.len() ==> !white_space(s[ws_len(s) as int]),
    decreases s.len(),
{
    if s.len() > 0 && white_space(s[0]) {
        lemma_ws_bounds(s.drop_first());
    }
}

/// A prefix of a digit run is worth no more than the whole run.
proof fn lemma_prefix_value(s: Seq<char>, k: int)
    requires
        0 <= k <= s.len(),
    ensures
        digits_value(s.take(k)) <= digits_value(s),
    decreases s.len(),
{
    if k < s.len() {
        lemma_prefix_value(s.drop_last(), k);
        assert(s.drop_last().take(k) =~= s.take(k));
    } else {
        assert(s.take(k) =~= s);
    }
}

/// Reads a run of decimal digits as a number.
fn parse_int(digits: &Vec<char>) -> (r: usize)
    requires
        all_digits(digits@),
        digits_value(digits@) <= usize::MAX,
    ensures
        r == digits_value(digits@),
{
    let mut v: usize = 0;
    let mut i: usize = 0;
    while i < digits.len()
        invariant
            i <= digits.len(),
            all_digits(digits@),
            digits_value(digits@) <= usize::MAX,
            v == digits_value(digits@.take(i as int)),
        decreases digits.len() - i,
    {
        proof {
            lemma_prefix_value(digits@, i + 1);
            assert(digits@.take(i + 1).drop_last() =~= digits@.take(i as int));
            assert(is_digit(digits@[i as int]));
        }
        let d = digits[i];
        v = v * 10 + ((d as u32) - ('0' as u32)) as usize;
        i = i + 1;
    }
    assert(digits@.take(i as int) =~= digits@);
    v
}

/// A suffix of a digit run is worth no more than the whole run.
proof fn lemma_suffix_value(s: Seq<char>, k: int)
    requires
        0 <= k <= s.len(),
    ensures
        digits_value(s.skip(k)) <= digits_value(s),
    decreases s.len(),
{
    if k < s.len() {
        lemma_suffix_value(s.drop_last(), k);
        assert(s.skip(k).drop_last() =~= s.drop_last().skip(k));
    } else {
        assert(s.skip(k).len() == 0);
    }
}

/// Whether each run of decimal digits in `chars` denotes a value that fits
/// in `usize`.
fn int_runs_fit(chars: &Vec<char>) -> (r: bool)
    ensures
        r == ints_fit(chars@),
{
    let ghost s = chars@;
    let mut run_start: usize = 0;
    let mut v: usize = 0;
    let mut i: usize = 0;
    while i < chars.len()
        invariant
            s == chars@,
            run_start <= i <= chars.len(),
            run_start > 0 ==> !is_digit(s[run_start - 1]),
            all_digits(s.subrange(run_start as int, i as int)),
            v == digits_value(s.subrange(run_start as int, i as int)),
            forall|p: int, q: int|
                0 <= p <= q <= i && all_digits(s.subrange(p, q)) ==> #[trigger] digits_value(
                    s.subrange(p, q),
                ) <= usize::MAX,
        decreases chars.len() - i,
    {
        let c = chars[i];
        if is_ascii_digit(c) {
            let ghost run = s.subrange(run_start as int, i + 1);
            proof {
                assert(run.drop_last() =~= s.subrange(run_start as int, i as int));
            }
            let d = ((c as u32) - ('0' as u32)) as usize;
            let next = match v.checked_mul(10) {
                Some(t) => t.checked_add(d),
                None => None,
            };
            match next {
                None => {
                    proof {
                        assert(all_digits(run));
                        assert(digits_value(run) > usize::MAX);
                    }
                    return false;
                },
                Some(w) => {
                    proof {
                        assert(all_digits(run));
                        assert forall|p: int, q: int|
                            0 <= p <= q <= i + 1 && all_digits(s.subrange(p, q)) implies #[trigger] digits_value(
                                s.subrange(p, q),
                            ) <= usize::MAX by {
                            if q == i + 1 && p <= i {
                                if p < run_start {
                                    assert(s.subrange(p, q)[run_start - 1 - p] == s[run_start - 1]);
                                }
                                lemma_suffix_value(run, p - run_start);
                                assert(run.skip(p - run_start) =~= s.subrange(p, q));
                            } else if q == i + 1 {
                                assert(s.subrange(p, q).len() == 0);
                            }
                        }
                    }
                    v = w;
                },
            }
        } else {
            proof {
                assert forall|p: int, q: int|
                    0 <= p <= q <= i + 1 && all_digits(s.subrange(p, q)) implies #[trigger] digits_value(
                        s.subrange(p, q),
                    ) <= usize::MAX by {
                    if q == i + 1 && p <= i {
                        assert(s.subrange(p, q)[i - p] == s[i as int]);
                    } else if q == i + 1 {
                        assert(s.subrange(p, q).len() == 0);
                    }
                }
                assert(s.subrange(i + 1, i + 1).len() == 0);
                assert(all_digits(s.subrange(i + 1, i + 1)));
            }
            run_start = i + 1;
            v = 0;
        }
        i = i + 1;
    }
    true
}

/// A scanner over the characters of a source text. Its view is the part of
/// the text not consumed yet.
pub struct Lexer {
    chars: Vec<char>,
    pos: usize,
}

impl View for Lexer {
    type V = Seq<char>;

    closed spec fn view(&self) -> Seq<char> {
        self.chars@.skip(self.pos as int)
    }
}

impl Lexer {
    /// The cursor lies within the text, and each digit run of the text fits
    /// in `usize`.
    pub closed spec fn wf(&self) -> bool {
        &&& self.pos <= self.chars.len()
        &&& ints_fit(self.chars@)
    }

    /// A lexer positioned at the first character of `code`.
    pub fn new(code: &str) -> (l: Lexer)
        requires
            ints_fit(code@),
        ensures
            l.wf(),
            l@ == code@,
    {
        let chars = chars_of(code);
        let l = Lexer { chars, pos: 0 };
        assert(l.chars@.skip(0) =~= code@);
        l
    }

    /// A lexer positioned at the first character of `code`, or `None` when
    /// a run of digits in `code` denotes a value too large for `usize`.
    pub fn try_new(code: &str) -> (r: Option<Lexer>)
        ensures
            r is Some <==> ints_fit(code@),
            r is Some ==> r->0.wf() && r->0@ == code@,
    {
        let chars = chars_of(code);
        if !int_runs_fit(&chars) {
            return None;
        }
        let l = Lexer { chars, pos: 0 };
        assert(l.chars@.skip(0) =~= code@);
        Some(l)
    }

    /// The next character, left in place.
    fn peek(&self) -> (r: Option<char>)
        requires
            self.wf(),
        ensures
            r == (if self@.len() > 0 {
                Some(self@[0])
            } else {
                None
            }),
    {
        if self.pos < self.chars.len() {
            Some(self.chars[self.pos])
        } else {
            None
        }
    }

    /// Consumes and returns the next character.
    fn read_char(&mut self) -> (r: Option<char>)
        requires
            old(self).wf(),
        ensures
            final(self).wf(),
            final(self).chars == old(self).chars,
            r == (if old(self)@.len() > 0 {
                Some(old(self)@[0])
            } else {
                None
            }),
            old(self)@.len() > 0 ==> final(self).pos == old(self).pos + 1,
            old(self)@.len() == 0 ==> final(self).pos == old(self).pos,
            final(self)@ == old(self)@.skip(if old(self)@.len() > 0 { 1int } else { 0int }),
    {
        if self.pos < self.chars.len() {
            let c = self.chars[self.pos];
            self.pos = self.pos + 1;
            assert(self.chars@.skip(self.pos as int) =~= old(self)@.skip(1));
            Some(c)
        } else {
            assert(old(self)@.skip(0) =~= old(self)@);
            None
        }
    }

    /// Consumes the whitespace at the front.
    fn skip_whitespace(&mut self)
        requires
            old(self).wf(),
        ensures
            final(self).wf(),
            final(self).chars == old(self).chars,
            final(self)@ == old(self)@.skip(ws_len(old(self)@) as int),
    {
        let ghost start = self.pos as int;
        while self.pos < self.chars.len() && is_white_space(self.chars[self.pos])
            invariant
                self.wf(),
                self.chars == old(self).chars,
                start <= self.pos,
                ws_len(self.chars@.skip(start)) == (self.pos - start) + ws_len(self.chars@.skip(self.pos as int)),
            decreases self.chars.len() - self.pos,
        {
            proof {
                lemma_ws_skip(self.chars@, self.pos as int);
            }
            self.pos = self.pos + 1;
        }
        assert(ws_len(self.chars@.skip(self.pos as int)) == 0);
        assert(self.chars@.skip(self.pos as int) =~= old(self)@.skip(ws_len(old(self)@) as int));
    }

    /// Returns `c` followed by the longest run of the class at the front of
    /// what is left, and consumes that run. `c` itself is kept untested.
    fn keep_reading(&mut self, c: char, letters: bool) -> (out: Vec<char>)
        requires
            old(self).wf(),
        ensures
            final(self).wf(),
            final(self).chars == old(self).chars,
            out@ == seq![c] + old(self)@.take(run_len(old(self)@, letters) as int),
            final(self)@ == old(self)@.skip(run_len(old(self)@, letters) as int),
    {
        let ghost start = self.pos as int;
        let mut out: Vec<char> = vec![c];
        assert(out@ =~= seq![c] + self.chars@.subrange(start, self.pos as int));
        while self.pos < self.chars.len() && is_in_class(self.chars[self.pos], letters)
            invariant
                self.wf(),
                self.chars == old(self).chars,
                start == old(self).pos,
                start <= self.pos,
                out@ == seq![c] + self.chars@.subrange(start, self.pos as int),
                run_len(self.chars@.skip(start), letters) == (self.pos - start) + run_len(
                    self.chars@.skip(self.pos as int),
                    letters,
                ),
            decreases self.chars.len() - self.pos,
        {
            proof {
                lemma_run_skip(self.chars@, self.pos as int, letters);
            }
            let ghost before = out@;
            out.push(self.chars[self.pos]);
            self.pos = self.pos + 1;
            assert(out@ =~= seq![c] + self.chars@.subrange(start, self.pos as int)) by {
                assert(out@ == before.push(self.chars@[self.pos - 1]));
            }
        }
        assert(run_len(self.chars@.skip(self.pos as int), letters) == 0);
        assert(old(self)@.take(self.pos - start) =~= self.chars@.subrange(start, self.pos as int));
        assert(self@ =~= old(self)@.skip(self.pos - start));
        out
    }

    /// Reads the token at the very front of what is left, without skipping
    /// whitespace first; `None` when nothing is left.
    pub fn read_token(&mut self) -> (r: Option<Token>)
        requires
            old(self).wf(),
        ensures
            final(self).wf(),
            match scan(old(self)@) {
                None => r is None && final(self)@ == old(self)@,
                Some((t, n)) => r is Some && r->0@ == t && final(self)@ == old(self)@.skip(
                    n as int,
                ),
            },
    {
        let ghost s = self@;
        let ghost p0 = self.pos as int;
        let c = match self.read_char() {
            None => return None,
            Some(c) => c,
        };
        assert(self@ =~= s.skip(1));
        if c == '!' || c == '=' {
            if let Some(d) = self.peek() {
                if d == '=' {
                    self.read_char();
                    assert(self@ =~= s.skip(2));
                    return Some(if c == '!' { Token::NotEqual } else { Token::Equal });
                }
            }
            return Some(if c == '!' { Token::Bang } else { Token::Assign });
        }
        if c == '*' {
            Some(Token::Asterisk)
        } else if c == '/' {
            Some(Token::Slash)
        } else if c == '>' {
            Some(Token::Gt)
        } else if c == '<' {
            Some(Token::Lt)
        } else if c == '-' {
            Some(Token::Minus)
        } else if c == '+' {
            Some(Token::Plus)
        } else if c == ',' {
            Some(Token::Comma)
        } else if c == ';' {
            Some(Token::Semicolon)
        } else if c == '(' {
            Some(Token::Lparen)
        } else if c == ')' {
            Some(Token::Rparen)
        } else if c == '{' {
            Some(Token::Lsquirlybrace)
        } else if c == '}' {
            Some(Token::Rsquirlybrace)
        } else if is_ascii_digit(c) {
            let run = self.keep_reading(c, false);
            let ghost n = run_len(s, false);
            proof {
                assert(s.drop_first() =~= s.skip(1));
                assert(n == 1 + run_len(s.skip(1), false));
                lemma_run_bounds(s, false);
                assert(self.chars@.subrange(p0, p0 + n) =~= s.take(n as int));
                assert(run@ =~= s.take(n as int));
                assert(all_digits(run@));
                assert(digits_value(self.chars@.subrange(p0, p0 + n)) <= usize::MAX);
                assert(self@ =~= s.skip(n as int));
            }
            Some(Token::Int(parse_int(&run)))
        } else if is_ascii_letter(c) {
            let ident = self.keep_reading(c, true);
            let ghost n = run_len(s, true);
            proof {
                assert(s.drop_first() =~= s.skip(1));
                assert(n == 1 + run_len(s.skip(1), true));
                lemma_run_bounds(s, true);
                assert(self.chars@.subrange(p0, p0 + n) =~= s.take(n as int));
                assert(ident@ =~= s.take(n as int));
                assert(self@ =~= s.skip(n as int));
            }
            match lookup_keyword(&ident) {
                Some(k) => Some(k),
                None => Some(Token::Identifier(collect_string(&ident))),
            }
        } else {
            Some(Token::Illegal)
        }
    }

    /// Skips whitespace, then reads one token; `None` once the input is
    /// exhausted, and on every later call too.
    pub fn next(&mut self) -> (r: Option<Token>)
        requires
            old(self).wf(),
        ensures
            final(self).wf(),
            final(self)@ == after_next(old(self)@),
            match next_token(old(self)@) {
                None => r is None,
                Some((t, _)) => r is Some && r->0@ == t,
            },
    {
        let ghost s = self@;
        self.skip_whitespace();
        let r = self.read_token();
        proof {
            let k = ws_len(s);
            lemma_ws_bounds(s);
            lemma_step_bounds(s);
            if let Some((t, n)) = scan(s.skip(k as int)) {
                assert(s.skip(k as int).skip(n as int) =~= s.skip((k + n) as int));
            }
        }
        r
    }

    /// Reads every remaining token, in order.
    pub fn into_tokens(self) -> (r: Vec<Token>)
        requires
            self.wf(),
        ensures
            views(r@) == lex(self@),
    {
        let mut l = self;
        let mut out: Vec<Token> = Vec::new();
        loop
            invariant
                l.wf(),
                views(out@) + lex(l@) == lex(self@),
            decreases l@.len(),
        {
            let ghost s = l@;
            proof {
                lemma_step_bounds(s);
            }
            match l.next() {
                None => {
                    assert(views(out@) =~= views(out@) + lex(s));
                    return out;
                },
                Some(t) => {
                    let ghost before = out@;
                    out.push(t);
                    assert(views(out@) =~= views(before) + seq![t@]);
                    assert(views(out@) + lex(l@) =~= views(before) + lex(s));
                },
            }
        }
    }
}

/// Each token consumes at least one character and no more than are left;
/// the input is exhausted exactly when only whitespace is left.
pub proof fn lemma_step_bounds(s: Seq<char>)
    ensures
        match next_token(s) {
            Some((_, n)) => 0 < n <= s.len(),
            None => ws_len(s) == s.len(),
        },
{
    let k = ws_len(s) as int;
    lemma_ws_bounds(s);
    let rest = s.skip(k);
    lemma_run_bounds(rest, false);
    lemma_run_bounds(rest, true);
}

/// Whether `c` belongs to the class of a run: letters when `letters`, else
/// digits.
fn is_in_class(c: char, letters: bool) -> (r: bool)
    ensures
        r == in_class(c, letters),
{
    if letters {
        is_ascii_letter(c)
    } else {
        is_ascii_digit(c)
    }
}

/// Whether `c` is a decimal digit.
fn is_ascii_digit(c: char) -> (r: bool)
    ensures
        r == is_digit(c),
{
    '0' <= c && c <= '9'
}

/// Whether `c` is an ASCII letter.
fn is_ascii_letter(c: char) -> (r: bool)
    ensures
        r == is_letter(c),
{
    ('a' <= c && c <= 'z') || ('A' <= c && c <= 'Z')
}

} // verus!
