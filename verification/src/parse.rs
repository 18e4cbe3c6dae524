use vstd::prelude::*;

verus! {

use crate::expr::Expr;
use crate::expr::ExprV;
use crate::expr::str_eq;

/// A lexical token.
#[derive(Debug)]
pub enum Token {
    ParL,
    ParR,
    KwIn,
    Equal,
    KwLet,
    Lam,
    Dot,
    Eof,
    Var(String),
}

/// Model of a token: a variable token carries its name's characters.
pub enum Tok {
    ParL,
    ParR,
    KwIn,
    Equal,
    KwLet,
    Lam,
    Dot,
    Eof,
    Var(Seq<char>),
}

pub open spec fn token_view(t: Token) -> Tok {
    match t {
        Token::ParL => Tok::ParL,
        Token::ParR => Tok::ParR,
        Token::KwIn => Tok::KwIn,
        Token::Equal => Tok::Equal,
        Token::KwLet => Tok::KwLet,
        Token::Lam => Tok::Lam,
        Token::Dot => Tok::Dot,
        Token::Eof => Tok::Eof,
        Token::Var(x) => Tok::Var(x@),
    }
}

impl View for Token {
    type V = Tok;

    open spec fn view(&self) -> Tok {
        token_view(*self)
    }
}

/// What went wrong with an input line: an unexpected character from the
/// lexer, or a syntax error from the parser. `ExpectedToken` carries the
/// wanted and the found token, `ExpectedName` the token found where a
/// variable was wanted, `UnexpectedToken` one that can start no
/// expression, and `TrailingInput` marks text left over after a complete
/// expression.
#[derive(Debug)]
pub enum ParseError {
    UnexpectedChar(char),
    ExpectedToken(Token, Token),
    ExpectedName(Token),
    UnexpectedToken(Token),
    TrailingInput,
}

/// Model of a parse error.
pub enum PErr {
    UnexpectedChar(char),
    ExpectedToken(Tok, Tok),
    ExpectedName(Tok),
    UnexpectedToken(Tok),
    TrailingInput,
}

pub open spec fn error_view(e: ParseError) -> PErr {
    match e {
        ParseError::UnexpectedChar(c) => PErr::UnexpectedChar(c),
        ParseError::ExpectedToken(want, got) => PErr::ExpectedToken(token_view(want), token_view(got)),
        ParseError::ExpectedName(got) => PErr::ExpectedName(token_view(got)),
        ParseError::UnexpectedToken(got) => PErr::UnexpectedToken(token_view(got)),
        ParseError::TrailingInput => PErr::TrailingInput,
    }
}

impl View for ParseError {
    type V = PErr;

    open spec fn view(&self) -> PErr {
        error_view(*self)
    }
}

pub open spec fn is_space_char(c: char) -> bool {
    c == ' ' || c == '\t' || c == '\n'
}

pub open spec fn is_alpha_char(c: char) -> bool {
    (97 <= c as u32 && c as u32 <= 122) || (65 <= c as u32 && c as u32 <= 90)
}

/// A character that may continue an identifier before its primes.
pub open spec fn is_ident_char(c: char) -> bool {
    is_alpha_char(c) || c == '_'
}

fn is_space(c: char) -> (r: bool)
    ensures
        r == is_space_char(c),
{
    c == ' ' || c == '\t' || c == '\n'
}

fn is_alpha(c: char) -> (r: bool)
    ensures
        r == is_alpha_char(c),
{
    let u = c as u32;
    (97 <= u && u <= 122) || (65 <= u && u <= 90)
}

fn is_ident(c: char) -> (r: bool)
    ensures
        r == is_ident_char(c),
{
    is_alpha(c) || c == '_'
}

/// First position at or after `pos` that does not continue an identifier.
pub open spec fn ident_end(s: Seq<char>, pos: int) -> int
    decreases s.len() - pos,
{
    if 0 <= pos < s.len() && is_ident_char(s[pos]) {
        ident_end(s, pos + 1)
    } else {
        pos
    }
}

/// First position at or after `pos` that is not a prime.
pub open spec fn prime_end(s: Seq<char>, pos: int) -> int
    decreases s.len() - pos,
{
    if 0 <= pos < s.len() && s[pos] == '\'' {
        prime_end(s, pos + 1)
    } else {
        pos
    }
}

/// First position at or after `pos` that holds a newline, or the end.
pub open spec fn comment_end(s: Seq<char>, pos: int) -> int
    decreases s.len() - pos,
{
    if 0 <= pos < s.len() && s[pos] != '\n' {
        comment_end(s, pos + 1)
    } else {
        pos
    }
}

pub proof fn lemma_ident_end_bounds(s: Seq<char>, pos: int)
    requires
        0 <= pos <= s.len(),
    ensures
        pos <= ident_end(s, pos) <= s.len(),
    decreases s.len() - pos,
{
    if 0 <= pos < s.len() && is_ident_char(s[pos]) {
        lemma_ident_end_bounds(s, pos + 1);
    }
}

pub proof fn lemma_prime_end_bounds(s: Seq<char>, pos: int)
    requires
        0 <= pos <= s.len(),
    ensures
        pos <= prime_end(s, pos) <= s.len(),
    decreases s.len() - pos,
{
    if 0 <= pos < s.len() && s[pos] == '\'' {
        lemma_prime_end_bounds(s, pos + 1);
    }
}

pub proof fn lemma_comment_end_bounds(s: Seq<char>, pos: int)
    requires
        0 <= pos <= s.len(),
    ensures
        pos <= comment_end(s, pos) <= s.len(),
    decreases s.len() - pos,
{
    if 0 <= pos < s.len() && s[pos] != '\n' {
        lemma_comment_end_bounds(s, pos + 1);
    }
}

/// The token class of an identifier's text: the two keywords are set
/// apart, everything else is a variable.
pub open spec fn classify(n: Seq<char>) -> Tok {
    if n == seq!['l', 'e', 't'] {
        Tok::KwLet
    } else if n == seq!['i', 'n'] {
        Tok::KwIn
    } else {
        Tok::Var(n)
    }
}

/// The next token of `s` at `pos` and the position after it: spaces and
/// `--` comments are skipped; an unrecognized character is the error,
/// with the position where it stands.
pub open spec fn spec_token(s: Seq<char>, pos: int) -> Result<(Tok, int), (char, int)>
    recommends
        0 <= pos <= s.len(),
    decreases s.len() - pos,
    via spec_token_decreases
{
    if pos < 0 || pos >= s.len() {
        Ok((Tok::Eof, pos))
    } else {
        let c = s[pos];
        if c == '(' {
            Ok((Tok::ParL, pos + 1))
        } else if c == ')' {
            Ok((Tok::ParR, pos + 1))
        } else if c == '\\' || c == '\u{03bb}' {
            Ok((Tok::Lam, pos + 1))
        } else if c == '.' {
            Ok((Tok::Dot, pos + 1))
        } else if c == '=' {
            Ok((Tok::Equal, pos + 1))
        } else if is_alpha_char(c) {
            let end = prime_end(s, ident_end(s, pos));
            Ok((classify(s.subrange(pos, end)), end))
        } else if is_space_char(c) {
            spec_token(s, pos + 1)
        } else if c == '-' && pos + 1 < s.len() && s[pos + 1] == '-' {
            spec_token(s, comment_end(s, pos + 2))
        } else {
            Err((c, pos))
        }
    }
}

#[via_fn]
proof fn spec_token_decreases(s: Seq<char>, pos: int) {
    if 0 <= pos < s.len() {
        let c = s[pos];
        if c == '-' && pos + 1 < s.len() && s[pos + 1] == '-' {
            lemma_comment_end_bounds(s, pos + 2);
        }
    }
}

/// The next token starts at or after `pos`, ends within the text, and a
/// token other than the end marker covers at least one character.
pub proof fn lemma_spec_token_bounds(s: Seq<char>, pos: int)
    requires
        0 <= pos <= s.len(),
    ensures
        match spec_token(s, pos) {
            Ok((t, p2)) => pos <= p2 <= s.len() && (t != Tok::Eof ==> pos < p2),
            Err(_) => true,
        },
    decreases s.len() - pos,
{
    if 0 <= pos < s.len() {
        let c = s[pos];
        if is_alpha_char(c) {
            lemma_ident_end_bounds(s, pos + 1);
            lemma_prime_end_bounds(s, ident_end(s, pos));
        } else if is_space_char(c) {
            lemma_spec_token_bounds(s, pos + 1);
        } else if c == '-' && pos + 1 < s.len() && s[pos + 1] == '-' {
            lemma_comment_end_bounds(s, pos + 2);
            lemma_spec_token_bounds(s, comment_end(s, pos + 2));
        }
    }
}

/// The lexer's cursor into one line of text, with room for one
/// pushed-back token.
pub struct Lexer<'a> {
    pub s: &'a str,
    pub pos: usize,
    pub push: Option<Token>,
}

pub open spec fn push_view(p: Option<Token>) -> Option<Tok> {
    match p {
        Some(t) => Some(token_view(t)),
        None => None,
    }
}

/// A lexer state at the model level.
pub struct LexState {
    pub s: Seq<char>,
    pub pos: int,
    pub push: Option<Tok>,
}

/// What taking a token from the state yields: the pushed-back token if
/// one is pending, else the next token of the text.
pub open spec fn st_take(st: LexState) -> Result<(Tok, LexState), (char, LexState)> {
    match st.push {
        Some(t) => Ok((t, LexState { s: st.s, pos: st.pos, push: None })),
        None => match spec_token(st.s, st.pos) {
            Ok((t, p)) => Ok((t, LexState { s: st.s, pos: p, push: None })),
            Err((c, p)) => Err((c, LexState { s: st.s, pos: p, push: None })),
        },
    }
}

/// How much input is left: characters after the cursor, plus one for a
/// pending pushed-back token.
pub open spec fn st_measure(st: LexState) -> int {
    (if st.pos <= st.s.len() {
        st.s.len() - st.pos
    } else {
        0int
    }) + (if st.push is Some {
        1int
    } else {
        0int
    })
}

impl<'a> Lexer<'a> {
    pub open spec fn wf(&self) -> bool {
        self.pos <= self.s@.len()
    }

    pub open spec fn state(&self) -> LexState {
        LexState { s: self.s@, pos: self.pos as int, push: push_view(self.push) }
    }

    pub fn new(s: &'a str) -> (r: Lexer<'a>)
        ensures
            r.wf(),
            r.state() == (LexState { s: s@, pos: 0int, push: None::<Tok> }),
    {
        Lexer { s, pos: 0, push: None }
    }
}

/// Pushes one token back; the next take returns it before the text is
/// read further. At most one token can be pending.
pub fn backtrack(l: &mut Lexer, t: Token)
    requires
        old(l).wf(),
        old(l).state().push is None,
    ensures
        final(l).wf(),
        final(l).state() == (LexState {
            s: old(l).state().s,
            pos: old(l).state().pos,
            push: Some(t@),
        }),
{
    l.push = Some(t);
}

/// Takes the next token: the pushed-back one if pending, else the next
/// token of the text, per `spec_token`.
pub fn token(l: &mut Lexer) -> (r: Result<Token, ParseError>)
    requires
        old(l).wf(),
    ensures
        final(l).wf(),
        final(l).state().s == old(l).state().s,
        final(l).state().push is None,
        match r {
            Ok(t) => st_take(old(l).state()) == Ok::<(Tok, LexState), (char, LexState)>(
                (t@, final(l).state()),
            ) && st_measure(final(l).state()) <= st_measure(old(l).state()) && (t@ != Tok::Eof
                ==> st_measure(final(l).state()) < st_measure(old(l).state())),
            Err(pe) => match st_take(old(l).state()) {
                Err((c, st1)) => pe@ == PErr::UnexpectedChar(c) && final(l).state() == st1
                    && st_measure(final(l).state()) <= st_measure(old(l).state()),
                Ok(_) => false,
            },
        },
{
    let pushed = l.push.take();
    if let Some(t) = pushed {
        return Ok(t);
    }
    let ghost s = l.s@;
    let ghost pos0 = l.pos as int;
    let n = l.s.unicode_len();
    loop
        invariant
            l.wf(),
            l.s == old(l).s,
            l.push is None,
            n == l.s@.len(),
            l.pos >= pos0,
            s == l.s@,
            0 <= pos0 <= s.len(),
            old(l).state().s == s,
            (old(l).state().push matches None),
            pos0 == old(l).state().pos,
            spec_token(s, l.pos as int) == spec_token(s, pos0),
        decreases n - l.pos,
    {
        if l.pos == n {
            return Ok(Token::Eof);
        }
        let c = l.s.get_char(l.pos);
        if c == '(' {
            l.pos = l.pos + 1;
            return Ok(Token::ParL);
        } else if c == ')' {
            l.pos = l.pos + 1;
            return Ok(Token::ParR);
        } else if c == '\\' || c == '\u{03bb}' {
            l.pos = l.pos + 1;
            return Ok(Token::Lam);
        } else if c == '.' {
            l.pos = l.pos + 1;
            return Ok(Token::Dot);
        } else if c == '=' {
            l.pos = l.pos + 1;
            return Ok(Token::Equal);
        } else if is_alpha(c) {
            let start = l.pos;
            loop
                invariant
                    l.wf(),
                    l.s == old(l).s,
                    l.push is None,
                    n == s.len(),
                    s == l.s@,
                    start <= l.pos,
                    ident_end(s, start as int) == ident_end(s, l.pos as int),
                ensures
                    l.wf(),
                    l.s == old(l).s,
                    l.push is None,
                    s == l.s@,
                    start <= l.pos,
                    l.pos as int == ident_end(s, start as int),
                decreases n - l.pos,
            {
                if !(l.pos < n && is_ident(l.s.get_char(l.pos))) {
                    break;
                }
                l.pos = l.pos + 1;
            }
            let ghost mid = l.pos as int;
            loop
                invariant
                    l.wf(),
                    l.s == old(l).s,
                    l.push is None,
                    n == s.len(),
                    s == l.s@,
                    mid <= l.pos,
                    prime_end(s, mid) == prime_end(s, l.pos as int),
                ensures
                    l.wf(),
                    l.s == old(l).s,
                    l.push is None,
                    s == l.s@,
                    mid <= l.pos,
                    l.pos as int == prime_end(s, mid),
                decreases n - l.pos,
            {
                if !(l.pos < n && l.s.get_char(l.pos) == '\'') {
                    break;
                }
                l.pos = l.pos + 1;
            }
            proof {
                assert(is_ident_char(s[start as int]));
                assert(ident_end(s, start as int) == ident_end(s, start as int + 1));
                lemma_ident_end_bounds(s, start as int + 1);
            }
            let piece = l.s.substring_char(start, l.pos);
            proof {
                reveal_strlit("let");
                reveal_strlit("in");
                assert("let"@ =~= seq!['l', 'e', 't']);
                assert("in"@ =~= seq!['i', 'n']);
            }
            if str_eq(piece, "let") {
                return Ok(Token::KwLet);
            } else if str_eq(piece, "in") {
                return Ok(Token::KwIn);
            } else {
                return Ok(Token::Var(piece.to_owned()));
            }
        } else if is_space(c) {
            l.pos = l.pos + 1;
        } else if c == '-' {
            if l.pos + 1 < n && l.s.get_char(l.pos + 1) == '-' {
                let ghost from = l.pos + 2int;
                l.pos = l.pos + 2;
                loop
                    invariant
                        l.wf(),
                        l.s == old(l).s,
                        l.push is None,
                        n == s.len(),
                        s == l.s@,
                        from <= l.pos,
                        comment_end(s, from) == comment_end(s, l.pos as int),
                    ensures
                        l.wf(),
                        l.s == old(l).s,
                        l.push is None,
                        s == l.s@,
                        from <= l.pos,
                        l.pos as int == comment_end(s, from),
                    decreases n - l.pos,
                {
                    if !(l.pos < n && l.s.get_char(l.pos) != '\n') {
                        break;
                    }
                    l.pos = l.pos + 1;
                }
            } else {
                return Err(ParseError::UnexpectedChar('-'));
            }
        } else {
            return Err(ParseError::UnexpectedChar(c));
        }
    }
}

/// Compares two tokens structurally.
fn token_eq(a: &Token, b: &Token) -> (r: bool)
    ensures
        r == (a@ == b@),
{
    match (a, b) {
        (Token::ParL, Token::ParL) => true,
        (Token::ParR, Token::ParR) => true,
        (Token::KwIn, Token::KwIn) => true,
        (Token::Equal, Token::Equal) => true,
        (Token::KwLet, Token::KwLet) => true,
        (Token::Lam, Token::Lam) => true,
        (Token::Dot, Token::Dot) => true,
        (Token::Eof, Token::Eof) => true,
        (Token::Var(x), Token::Var(y)) => str_eq(x.as_str(), y.as_str()),
        _ => false,
    }
}

/// Taking a token never lengthens the remaining input, and a token other
/// than the end marker shortens it.
pub proof fn lemma_st_take_measure(st: LexState)
    ensures
        match st_take(st) {
            Ok((t, st1)) => st_measure(st1) <= st_measure(st) && (t != Tok::Eof
                ==> st_measure(st1) < st_measure(st)),
            Err(_) => true,
        },
{
    match st.push {
        Some(_) => {},
        None => {
            if 0 <= st.pos <= st.s.len() {
                lemma_spec_token_bounds(st.s, st.pos);
            }
        },
    }
}

/// The next token must be `e`: takes it, or reports what stood there.
pub open spec fn spec_expect(st: LexState, e: Tok) -> Result<LexState, (PErr, LexState)> {
    match st_take(st) {
        Err((c, st1)) => Err((PErr::UnexpectedChar(c), st1)),
        Ok((t, st1)) => if t == e {
            Ok(st1)
        } else {
            Err((PErr::ExpectedToken(e, t), st1))
        },
    }
}

pub proof fn lemma_spec_expect_measure(st: LexState, e: Tok)
    ensures
        match spec_expect(st, e) {
            Ok(st1) => st_measure(st1) <= st_measure(st) && (e != Tok::Eof ==> st_measure(st1)
                < st_measure(st)),
            Err(_) => true,
        },
{
    lemma_st_take_measure(st);
}

/// Takes the next token and checks that it is `e`, per `spec_expect`.
pub fn expect(l: &mut Lexer, e: Token) -> (r: Result<Token, ParseError>)
    requires
        old(l).wf(),
    ensures
        final(l).wf(),
        final(l).state().s == old(l).state().s,
        st_measure(final(l).state()) <= st_measure(old(l).state()),
        match r {
            Ok(t) => t@ == e@ && spec_expect(old(l).state(), e@) == Ok::<
                LexState,
                (PErr, LexState),
            >(final(l).state()) && (e@ != Tok::Eof ==> st_measure(final(l).state()) < st_measure(
                old(l).state(),
            )),
            Err(pe) => spec_expect(old(l).state(), e@) == Err::<LexState, (PErr, LexState)>(
                (pe@, final(l).state()),
            ),
        },
{
    let t = match token(l) {
        Ok(t) => t,
        Err(pe) => {
            return Err(pe);
        },
    };
    if token_eq(&t, &e) {
        Ok(t)
    } else {
        Err(ParseError::ExpectedToken(e, t))
    }
}

/// Result of probing for one applied atom: an atom, a stop (the probed
/// token is pushed back), or an error.
pub enum BaseRes {
    Item(ExprV, LexState),
    Stop(LexState),
    Fail(PErr, LexState),
}

/// One expression starting at `st`: a head (parenthesized expression,
/// abstraction, binding or variable) followed by every atom that
/// juxtaposition applies it to, associating to the left.
pub open spec fn spec_parse_expr(st: LexState) -> Result<(ExprV, LexState), (PErr, LexState)>
    decreases st_measure(st), 2int,
    via spec_parse_expr_decreases
{
    match st_take(st) {
        Err((c, st1)) => Err((PErr::UnexpectedChar(c), st1)),
        Ok((t, st1)) => match t {
            Tok::ParL => match spec_parse_expr(st1) {
                Err(e) => Err(e),
                Ok((e1, st2)) => match spec_expect(st2, Tok::ParR) {
                    Err(e) => Err(e),
                    Ok(st3) => if st_measure(st3) <= st_measure(st1) {
                        spec_parse_apps(st3, e1)
                    } else {
                        // never reached: the parenthesized head consumed input
                        Ok((e1, st3))
                    },
                },
            },
            Tok::Lam => match st_take(st1) {
                Err((c, st2)) => Err((PErr::UnexpectedChar(c), st2)),
                Ok((t2, st2)) => match t2 {
                    Tok::Var(x) => match spec_expect(st2, Tok::Dot) {
                        Err(e) => Err(e),
                        Ok(st3) => match spec_parse_expr(st3) {
                            Err(e) => Err(e),
                            Ok((b, st4)) => if st_measure(st4) <= st_measure(st1) {
                                spec_parse_apps(st4, ExprV::Lam(x, Box::new(b)))
                            } else {
                                // never reached: the abstraction consumed input
                                Ok((ExprV::Lam(x, Box::new(b)), st4))
                            },
                        },
                    },
                    _ => Err((PErr::ExpectedName(t2), st2)),
                },
            },
            Tok::KwLet => match st_take(st1) {
                Err((c, st2)) => Err((PErr::UnexpectedChar(c), st2)),
                Ok((t2, st2)) => match t2 {
                    Tok::Var(x) => match spec_expect(st2, Tok::Equal) {
                        Err(e) => Err(e),
                        Ok(st3) => match spec_parse_expr(st3) {
                            Err(e) => Err(e),
                            Ok((v, st4)) => match spec_expect(st4, Tok::KwIn) {
                                Err(e) => Err(e),
                                Ok(st5) => if st_measure(st5) < st_measure(st2) {
                                    match spec_parse_expr(st5) {
                                        Err(e) => Err(e),
                                        Ok((b, st6)) => if st_measure(st6) <= st_measure(st2) {
                                            spec_parse_apps(
                                                st6,
                                                ExprV::Let(x, Box::new(v), Box::new(b)),
                                            )
                                        } else {
                                            // never reached: the binding consumed input
                                            Ok((ExprV::Let(x, Box::new(v), Box::new(b)), st6))
                                        },
                                    }
                                } else {
                                    // never reached: `let x = v in` consumed input
                                    Err((PErr::TrailingInput, st5))
                                },
                            },
                        },
                    },
                    _ => Err((PErr::ExpectedName(t2), st2)),
                },
            },
            Tok::Var(x) => spec_parse_apps(st1, ExprV::Var(x)),
            _ => Err((PErr::UnexpectedToken(t), st1)),
        },
    }
}

#[via_fn]
proof fn spec_parse_expr_decreases(st: LexState) {
    lemma_st_take_measure(st);
    match st_take(st) {
        Ok((t, st1)) => {
            lemma_st_take_measure(st1);
            match st_take(st1) {
                Ok((t2, st2)) => {
                    lemma_spec_expect_measure(st2, Tok::Dot);
                    lemma_spec_expect_measure(st2, Tok::Equal);
                },
                Err(_) => {},
            }
        },
        Err(_) => {},
    }
}

/// Applies `acc` to each further atom, left-associatively, until the next
/// token can start no atom; that token is pushed back.
pub open spec fn spec_parse_apps(st: LexState, acc: ExprV) -> Result<
    (ExprV, LexState),
    (PErr, LexState),
>
    decreases st_measure(st), 1int,
{
    match spec_parse_base(st) {
        BaseRes::Fail(pe, st1) => Err((pe, st1)),
        BaseRes::Stop(st1) => Ok((acc, st1)),
        BaseRes::Item(e2, st1) => if st_measure(st1) < st_measure(st) {
            spec_parse_apps(st1, ExprV::App(Box::new(acc), Box::new(e2)))
        } else {
            // never reached: an atom always consumes input
            Ok((ExprV::App(Box::new(acc), Box::new(e2)), st1))
        },
    }
}

/// One applied atom: a parenthesized expression or a variable. An
/// abstraction or a dot here is an error; any other token stops the
/// application chain and is pushed back.
pub open spec fn spec_parse_base(st: LexState) -> BaseRes
    decreases st_measure(st), 0int,
    via spec_parse_base_decreases
{
    match st_take(st) {
        Err((c, st1)) => BaseRes::Fail(PErr::UnexpectedChar(c), st1),
        Ok((t, st1)) => match t {
            Tok::ParL => match spec_parse_expr(st1) {
                Err((pe, st2)) => BaseRes::Fail(pe, st2),
                Ok((e1, st2)) => match spec_expect(st2, Tok::ParR) {
                    Err((pe, st3)) => BaseRes::Fail(pe, st3),
                    Ok(st3) => BaseRes::Item(e1, st3),
                },
            },
            Tok::Var(x) => BaseRes::Item(ExprV::Var(x), st1),
            Tok::Dot => BaseRes::Fail(PErr::UnexpectedToken(Tok::Dot), st1),
            Tok::Lam => BaseRes::Fail(PErr::UnexpectedToken(Tok::Lam), st1),
            _ => BaseRes::Stop(LexState { s: st1.s, pos: st1.pos, push: Some(t) }),
        },
    }
}

#[via_fn]
proof fn spec_parse_base_decreases(st: LexState) {
    lemma_st_take_measure(st);
}

/// Parses one applied atom, per `spec_parse_base`: `None` means the next
/// token starts no atom and was pushed back.
pub fn parse_base(l: &mut Lexer) -> (r: Option<Result<Expr, ParseError>>)
    requires
        old(l).wf(),
    ensures
        final(l).wf(),
        final(l).state().s == old(l).state().s,
        match r {
            None => spec_parse_base(old(l).state()) == BaseRes::Stop(final(l).state())
                && st_measure(final(l).state()) <= st_measure(old(l).state()) + 1,
            Some(Ok(e)) => spec_parse_base(old(l).state()) == BaseRes::Item(e@, final(l).state())
                && st_measure(final(l).state()) < st_measure(old(l).state()),
            Some(Err(pe)) => spec_parse_base(old(l).state()) == BaseRes::Fail(
                pe@,
                final(l).state(),
            ) && st_measure(final(l).state()) <= st_measure(old(l).state()),
        },
    decreases st_measure(old(l).state()),
{
    let t = match token(l) {
        Ok(t) => t,
        Err(pe) => {
            return Some(Err(pe));
        },
    };
    match t {
        Token::ParL => {
            let e = match parse_expr(l) {
                Ok(e) => e,
                Err(pe) => {
                    return Some(Err(pe));
                },
            };
            match expect(l, Token::ParR) {
                Ok(_) => Some(Ok(e)),
                Err(pe) => Some(Err(pe)),
            }
        },
        Token::Var(x) => Some(Ok(Expr::Var(x))),
        Token::Dot => Some(Err(ParseError::UnexpectedToken(Token::Dot))),
        Token::Lam => Some(Err(ParseError::UnexpectedToken(Token::Lam))),
        t2 => {
            backtrack(l, t2);
            None
        },
    }
}

/// Parses one expression, per `spec_parse_expr`.
pub fn parse_expr(l: &mut Lexer) -> (r: Result<Expr, ParseError>)
    requires
        old(l).wf(),
    ensures
        final(l).wf(),
        final(l).state().s == old(l).state().s,
        st_measure(final(l).state()) <= st_measure(old(l).state()),
        match r {
            Ok(e) => spec_parse_expr(old(l).state()) == Ok::<(ExprV, LexState), (PErr, LexState)>(
                (e@, final(l).state()),
            ),
            Err(pe) => spec_parse_expr(old(l).state()) == Err::<
                (ExprV, LexState),
                (PErr, LexState),
            >((pe@, final(l).state())),
        },
    decreases st_measure(old(l).state()),
{
    let ghost st0 = old(l).state();
    let t = match token(l) {
        Ok(t) => t,
        Err(pe) => {
            return Err(pe);
        },
    };
    let mut e1: Expr = match t {
        Token::ParL => {
            let e = match parse_expr(l) {
                Ok(e) => e,
                Err(pe) => {
                    return Err(pe);
                },
            };
            match expect(l, Token::ParR) {
                Ok(_) => {},
                Err(pe) => {
                    return Err(pe);
                },
            };
            e
        },
        Token::Lam => {
            let t2 = match token(l) {
                Ok(t2) => t2,
                Err(pe) => {
                    return Err(pe);
                },
            };
            match t2 {
                Token::Var(x) => {
                    match expect(l, Token::Dot) {
                        Ok(_) => {},
                        Err(pe) => {
                            return Err(pe);
                        },
                    };
                    let b = match parse_expr(l) {
                        Ok(b) => b,
                        Err(pe) => {
                            return Err(pe);
                        },
                    };
                    Expr::Lam(x, Box::new(b))
                },
                other => {
                    return Err(ParseError::ExpectedName(other));
                },
            }
        },
        Token::KwLet => {
            let t2 = match token(l) {
                Ok(t2) => t2,
                Err(pe) => {
                    return Err(pe);
                },
            };
            match t2 {
                Token::Var(x) => {
                    match expect(l, Token::Equal) {
                        Ok(_) => {},
                        Err(pe) => {
                            return Err(pe);
                        },
                    };
                    let v = match parse_expr(l) {
                        Ok(v) => v,
                        Err(pe) => {
                            return Err(pe);
                        },
                    };
                    match expect(l, Token::KwIn) {
                        Ok(_) => {},
                        Err(pe) => {
                            return Err(pe);
                        },
                    };
                    let b = match parse_expr(l) {
                        Ok(b) => b,
                        Err(pe) => {
                            return Err(pe);
                        },
                    };
                    Expr::Let(x, Box::new(v), Box::new(b))
                },
                other => {
                    return Err(ParseError::ExpectedName(other));
                },
            }
        },
        Token::Var(x) => Expr::Var(x),
        other => {
            return Err(ParseError::UnexpectedToken(other));
        },
    };
    loop
        invariant_except_break
            st_measure(l.state()) < st_measure(st0),
            spec_parse_expr(st0) == spec_parse_apps(l.state(), e1@),
        invariant
            l.wf(),
            l.state().s == st0.s,
            st0 == old(l).state(),
            st_measure(l.state()) <= st_measure(st0),
        ensures
            l.wf(),
            l.state().s == st0.s,
            st_measure(l.state()) <= st_measure(st0),
            spec_parse_expr(st0) == Ok::<(ExprV, LexState), (PErr, LexState)>((e1@, l.state())),
        decreases st_measure(l.state()),
    {
        match parse_base(l) {
            None => {
                break;
            },
            Some(Err(pe)) => {
                return Err(pe);
            },
            Some(Ok(e2)) => {
                e1 = Expr::App(Box::new(e1), Box::new(e2));
            },
        }
    }
    Ok(e1)
}

/// What parsing a whole line yields: nothing at all when the line holds
/// no token, else the expression or the error; any token left after one
/// complete expression is trailing input.
pub open spec fn spec_parse(s: Seq<char>) -> Option<Result<ExprV, PErr>> {
    let st0 = LexState { s, pos: 0, push: None };
    match st_take(st0) {
        Err((c, st1)) => Some(Err(PErr::UnexpectedChar(c))),
        Ok((t, st1)) => if t == Tok::Eof {
            None
        } else {
            let stp = LexState { s: st1.s, pos: st1.pos, push: Some(t) };
            let parsed = spec_parse_expr(stp);
            let res = match parsed {
                Ok((e, st2)) => Ok(e),
                Err((pe, st2)) => Err(pe),
            };
            let st2 = match parsed {
                Ok((e, st2)) => st2,
                Err((pe, st2)) => st2,
            };
            match st_take(st2) {
                Ok((t2, st3)) => if t2 == Tok::Eof {
                    Some(res)
                } else {
                    Some(Err(PErr::TrailingInput))
                },
                Err(_) => Some(Err(PErr::TrailingInput)),
            }
        },
    }
}

/// Parses one line. `None` means the line's very first probe found the
/// end of input: a blank line, the caller's quit signal. Otherwise the
/// line must hold exactly one expression, per `spec_parse`.
pub fn parse(s: &str) -> (r: Option<Result<Expr, ParseError>>)
    ensures
        match r {
            None => spec_parse(s@) is None,
            Some(Ok(e)) => spec_parse(s@) == Some(Ok::<ExprV, PErr>(e@)),
            Some(Err(pe)) => spec_parse(s@) == Some(Err::<ExprV, PErr>(pe@)),
        },
{
    let mut l = Lexer::new(s);
    let t = match token(&mut l) {
        Ok(t) => t,
        Err(pe) => {
            return Some(Err(pe));
        },
    };
    match t {
        Token::Eof => None,
        t => {
            backtrack(&mut l, t);
            let e = parse_expr(&mut l);
            let fin = token(&mut l);
            let at_end = match &fin {
                Ok(Token::Eof) => true,
                _ => false,
            };
            if at_end {
                match e {
                    Ok(e) => Some(Ok(e)),
                    Err(pe) => Some(Err(pe)),
                }
            } else {
                Some(Err(ParseError::TrailingInput))
            }
        },
    }
}


} // verus!
