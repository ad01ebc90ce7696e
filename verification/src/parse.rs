//! Tokenizer and recursive-descent parser for the textual form of boolean
//! formulas, together with the round-trip law relating parsing to rendering.

use vstd::prelude::*;

verus! {

use crate::alg::Expr;
use crate::alg::Op;
use crate::alg::op_symbol;
use crate::alg::render_spec;
use crate::alg::wf_expr;

/// A lexical token of the expression language.
#[derive(Debug, PartialEq, Eq, Clone, Copy)]
pub enum Token {
    /// `^` or `v`, carrying the connective it stands for.
    BinOp(Op),
    /// `-`, the prefix negation.
    UnOp,
    /// `T` or `F`, carrying its truth value.
    Literal(bool),
    /// A lowercase letter naming a variable.
    Var(char),
    /// `(`.
    OpenParen,
    /// `)`.
    CloseParen,
}

/// Why a parse failed. Lexical failures carry the offending character;
/// grammatical failures say what the parser was missing.
#[derive(Debug, PartialEq, Eq, Clone, Copy)]
pub enum ParseError {
    /// A character outside the recognized alphabet.
    UnrecognizedChar(char),
    /// The input ended where a token was still required.
    UnexpectedEnd,
    /// A token that cannot start a factor, such as an operator or `)`.
    UnexpectedToken,
    /// A parenthesized expression whose closing `)` is missing.
    ExpectedCloseParen,
    /// A complete expression was parsed but input tokens remain.
    TrailingTokens,
}

/// The token a single character stands for, or `None` for a character
/// outside the alphabet. `T`, `F`, the operators and the brackets are
/// claimed first, so `v` is the or-operator and never a variable; any other
/// lowercase letter is a variable.
pub open spec fn char_token(c: char) -> Option<Token> {
    if c == 'T' {
        Some(Token::Literal(true))
    } else if c == 'F' {
        Some(Token::Literal(false))
    } else if c == '^' {
        Some(Token::BinOp(Op::And))
    } else if c == 'v' {
        Some(Token::BinOp(Op::Or))
    } else if c == '-' {
        Some(Token::UnOp)
    } else if c == '(' {
        Some(Token::OpenParen)
    } else if c == ')' {
        Some(Token::CloseParen)
    } else if 'a' <= c && c <= 'z' {
        Some(Token::Var(c))
    } else {
        None
    }
}

/// The tokens of the text from position `i` on: spaces are skipped, every
/// recognized character yields its token, and the first unrecognized
/// character fails the whole scan.
pub open spec fn tokenize_from(s: Seq<char>, i: int) -> Result<Seq<Token>, ParseError>
    decreases s.len() - i,
{
    if i < 0 || i >= s.len() {
        Ok(Seq::empty())
    } else if s[i] == ' ' {
        tokenize_from(s, i + 1)
    } else {
        match char_token(s[i]) {
            Some(t) => match tokenize_from(s, i + 1) {
                Ok(rest) => Ok(seq![t] + rest),
                Err(e) => Err(e),
            },
            None => Err(ParseError::UnrecognizedChar(s[i])),
        }
    }
}

/// The token sequence of a whole text.
pub open spec fn tokenize_spec(s: Seq<char>) -> Result<Seq<Token>, ParseError> {
    tokenize_from(s, 0)
}

/// A variable token always carries a lowercase letter.
pub open spec fn wf_token(t: Token) -> bool {
    match t {
        Token::Var(c) => 'a' <= c && c <= 'z',
        _ => true,
    }
}

/// Every token of the sequence is well formed.
pub open spec fn wf_tokens(ts: Seq<Token>) -> bool {
    forall|i: int| 0 <= i < ts.len() ==> wf_token(#[trigger] ts[i])
}

/// What the grammar rule `expression := term (binop expression)?` yields at
/// position `i`: a term, extended by a right-associative binary application
/// whenever the next token is a binary operator. `fuel` bounds the recursion
/// depth; callers pass more than the tokens left, so it never runs out.
pub open spec fn parse_expr_spec(t: Seq<Token>, i: int, fuel: nat) -> Result<
    (Expr, int),
    ParseError,
>
    decreases fuel, 2int,
{
    match parse_term_spec(t, i, fuel) {
        Err(e) => Err(e),
        Ok((lhs, j)) => if 0 <= j < t.len() && t[j] is BinOp {
            if fuel == 0 {
                Err(ParseError::UnexpectedEnd)
            } else {
                match parse_expr_spec(t, j + 1, (fuel - 1) as nat) {
                    Err(e) => Err(e),
                    Ok((rhs, k)) => Ok((Expr::BinOp(t[j]->BinOp_0, Box::new(lhs), Box::new(rhs)), k)),
                }
            }
        } else {
            Ok((lhs, j))
        },
    }
}

/// What the grammar rule `term := '-' factor | factor` yields at position
/// `i`.
pub open spec fn parse_term_spec(t: Seq<Token>, i: int, fuel: nat) -> Result<
    (Expr, int),
    ParseError,
>
    decreases fuel, 1int,
{
    if !(0 <= i < t.len()) {
        Err(ParseError::UnexpectedEnd)
    } else if t[i] is UnOp {
        match parse_factor_spec(t, i + 1, fuel) {
            Err(e) => Err(e),
            Ok((f, j)) => Ok((Expr::Not(Box::new(f)), j)),
        }
    } else {
        parse_factor_spec(t, i, fuel)
    }
}

/// What the grammar rule `factor := literal | variable | '(' expression ')'`
/// yields at position `i`.
pub open spec fn parse_factor_spec(t: Seq<Token>, i: int, fuel: nat) -> Result<
    (Expr, int),
    ParseError,
>
    decreases fuel, 0int,
{
    if !(0 <= i < t.len()) {
        Err(ParseError::UnexpectedEnd)
    } else {
        match t[i] {
            Token::Literal(b) => Ok((Expr::Lit(b), i + 1)),
            Token::Var(c) => Ok((Expr::Var(c), i + 1)),
            Token::OpenParen => if fuel == 0 {
                Err(ParseError::UnexpectedEnd)
            } else {
                match parse_expr_spec(t, i + 1, (fuel - 1) as nat) {
                    Err(e) => Err(e),
                    Ok((inner, j)) => if 0 <= j < t.len() && t[j] is CloseParen {
                        Ok((inner, j + 1))
                    } else {
                        Err(ParseError::ExpectedCloseParen)
                    },
                }
            },
            _ => Err(ParseError::UnexpectedToken),
        }
    }
}

/// What parsing a whole text returns: its tokens, parsed as one expression
/// that must consume every token.
pub open spec fn parse_spec(s: Seq<char>) -> Result<Expr, ParseError> {
    match tokenize_spec(s) {
        Err(e) => Err(e),
        Ok(t) => match parse_expr_spec(t, 0, (t.len() + 1) as nat) {
            Err(e) => Err(e),
            Ok((e, j)) => if j == t.len() {
                Ok(e)
            } else {
                Err(ParseError::TrailingTokens)
            },
        },
    }
}

/// Lifts an executable token-scan result to the spec form.
pub open spec fn toks_view(r: Result<Vec<Token>, ParseError>) -> Result<Seq<Token>, ParseError> {
    match r {
        Ok(v) => Ok(v@),
        Err(e) => Err(e),
    }
}

/// Lifts an executable parse-step result to the spec form.
pub open spec fn step_view(r: Result<(Expr, usize), ParseError>) -> Result<
    (Expr, int),
    ParseError,
> {
    match r {
        Ok((e, i)) => Ok((e, i as int)),
        Err(er) => Err(er),
    }
}

/// Turns expression text into a tree by recursive descent over its tokens.
pub struct Parser {}

impl Parser {
    /// Scans the text left to right into its token sequence, or fails on
    /// the first character outside the alphabet.
    pub fn token_stream(&self, input: &str) -> (r: Result<Vec<Token>, ParseError>)
        ensures
            toks_view(r) == tokenize_spec(input@),
            r matches Ok(v) ==> wf_tokens(v@),
    {
        let n = input.unicode_len();
        let mut toks: Vec<Token> = Vec::new();
        let mut i: usize = 0;
        while i < n
            invariant
                n == input@.len(),
                i <= n,
                wf_tokens(toks@),
                tokenize_from(input@, 0) == (match tokenize_from(input@, i as int) {
                    Ok(rest) => Ok::<Seq<Token>, ParseError>(toks@ + rest),
                    Err(e) => Err::<Seq<Token>, ParseError>(e),
                }),
            decreases n - i,
        {
            let c = input.get_char(i);
            let t_opt: Option<Token>;
            if c == 'T' {
                t_opt = Some(Token::Literal(true));
            } else if c == 'F' {
                t_opt = Some(Token::Literal(false));
            } else if c == '^' {
                t_opt = Some(Token::BinOp(Op::And));
            } else if c == 'v' {
                t_opt = Some(Token::BinOp(Op::Or));
            } else if c == '-' {
                t_opt = Some(Token::UnOp);
            } else if c == '(' {
                t_opt = Some(Token::OpenParen);
            } else if c == ')' {
                t_opt = Some(Token::CloseParen);
            } else if c == ' ' {
                t_opt = None;
            } else if 'a' <= c && c <= 'z' {
                t_opt = Some(Token::Var(c));
            } else {
                return Err(ParseError::UnrecognizedChar(c));
            }
            if let Some(t) = t_opt {
                let ghost prev = toks@;
                toks.push(t);
                proof {
                    match tokenize_from(input@, i as int + 1) {
                        Ok(rest2) => {
                            assert(prev + (seq![t] + rest2) =~= toks@ + rest2);
                        },
                        Err(_) => {},
                    }
                }
            }
            i = i + 1;
        }
        proof {
            assert(toks@ + Seq::<Token>::empty() =~= toks@);
        }
        Ok(toks)
    }

    /// The `expression` rule: a term, then optionally a binary operator and
    /// a whole expression to its right.
    fn parse_expr(&self, tokens: &Vec<Token>, idx: usize, fuel: Ghost<nat>) -> (r: Result<
        (Expr, usize),
        ParseError,
    >)
        requires
            fuel@ + idx >= tokens@.len() + 1,
        ensures
            step_view(r) == parse_expr_spec(tokens@, idx as int, fuel@),
            r matches Ok(p) ==> idx < p.1 <= tokens@.len(),
            wf_tokens(tokens@) ==> (r matches Ok(p) ==> wf_expr(p.0)),
        decreases fuel@, 2int,
    {
        match self.parse_term(tokens, idx, fuel) {
            Err(e) => Err(e),
            Ok((lhs, j)) => {
                if j < tokens.len() {
                    match tokens[j] {
                        Token::BinOp(op) => {
                            match self.parse_expr(tokens, j + 1, Ghost((fuel@ - 1) as nat)) {
                                Err(e) => Err(e),
                                Ok((rhs, k)) => Ok(
                                    (Expr::BinOp(op, Box::new(lhs), Box::new(rhs)), k),
                                ),
                            }
                        },
                        _ => Ok((lhs, j)),
                    }
                } else {
                    Ok((lhs, j))
                }
            },
        }
    }

    /// The `term` rule: a factor, optionally under a prefix negation.
    fn parse_term(&self, tokens: &Vec<Token>, idx: usize, fuel: Ghost<nat>) -> (r: Result<
        (Expr, usize),
        ParseError,
    >)
        requires
            fuel@ + idx >= tokens@.len() + 1,
        ensures
            step_view(r) == parse_term_spec(tokens@, idx as int, fuel@),
            r matches Ok(p) ==> idx < p.1 <= tokens@.len(),
            wf_tokens(tokens@) ==> (r matches Ok(p) ==> wf_expr(p.0)),
        decreases fuel@, 1int,
    {
        if idx < tokens.len() {
            match tokens[idx] {
                Token::UnOp => {
                    match self.parse_factor(tokens, idx + 1, fuel) {
                        Err(e) => Err(e),
                        Ok((f, j)) => Ok((Expr::Not(Box::new(f)), j)),
                    }
                },
                _ => self.parse_factor(tokens, idx, fuel),
            }
        } else {
            Err(ParseError::UnexpectedEnd)
        }
    }

    /// The `factor` rule: a literal, a variable, or a parenthesized
    /// expression.
    fn parse_factor(&self, tokens: &Vec<Token>, idx: usize, fuel: Ghost<nat>) -> (r: Result<
        (Expr, usize),
        ParseError,
    >)
        requires
            fuel@ + idx >= tokens@.len() + 1,
        ensures
            step_view(r) == parse_factor_spec(tokens@, idx as int, fuel@),
            r matches Ok(p) ==> idx < p.1 <= tokens@.len(),
            wf_tokens(tokens@) ==> (r matches Ok(p) ==> wf_expr(p.0)),
        decreases fuel@, 0int,
    {
        if idx < tokens.len() {
            match tokens[idx] {
                Token::Literal(b) => Ok((Expr::Lit(b), idx + 1)),
                Token::Var(c) => Ok((Expr::Var(c), idx + 1)),
                Token::OpenParen => {
                    match self.parse_expr(tokens, idx + 1, Ghost((fuel@ - 1) as nat)) {
                        Err(e) => Err(e),
                        Ok((node, j)) => {
                            if j < tokens.len() {
                                match tokens[j] {
                                    Token::CloseParen => Ok((node, j + 1)),
                                    _ => Err(ParseError::ExpectedCloseParen),
                                }
                            } else {
                                Err(ParseError::ExpectedCloseParen)
                            }
                        },
                    }
                },
                _ => Err(ParseError::UnexpectedToken),
            }
        } else {
            Err(ParseError::UnexpectedEnd)
        }
    }

    /// Parses expression text: tokenize, parse one expression, and require
    /// that every token was consumed.
    pub fn parse(&self, s: &str) -> (r: Result<Expr, ParseError>)
        ensures
            r == parse_spec(s@),
            r matches Ok(e) ==> wf_expr(e),
    {
        match self.token_stream(s) {
            Err(e) => Err(e),
            Ok(tokens) => {
                match self.parse_expr(&tokens, 0, Ghost((tokens@.len() + 1) as nat)) {
                    Err(e) => Err(e),
                    Ok((node, i)) => {
                        if i == tokens.len() {
                            Ok(node)
                        } else {
                            Err(ParseError::TrailingTokens)
                        }
                    },
                }
            },
        }
    }
}

/// The trees whose rendering parses back: no negation (rendered with `¬`, a
/// character the tokenizer does not accept) and no variable named `v` (its
/// rendering is read back as the or-operator's symbol).
pub open spec fn reparsable(e: Expr) -> bool
    decreases e,
{
    match e {
        Expr::Lit(_) => true,
        Expr::Var(c) => 'a' <= c && c <= 'z' && c != 'v',
        Expr::Not(_) => false,
        Expr::BinOp(_, l, r) => reparsable(*l) && reparsable(*r),
    }
}

/// The tokens that scanning the rendering of a reparsable tree yields. A
/// negation has no such token form, so that arm is left empty and is never
/// relied upon.
spec fn render_tokens(e: Expr) -> Seq<Token>
    decreases e,
{
    match e {
        Expr::Lit(b) => seq![Token::Literal(b)],
        Expr::Var(c) => seq![Token::Var(c)],
        Expr::Not(_) => seq![],
        Expr::BinOp(op, l, r) => seq![Token::OpenParen] + render_tokens(*l)
            + seq![Token::BinOp(op)] + render_tokens(*r) + seq![Token::CloseParen],
    }
}

/// Scanning a text that carries the rendering of a reparsable tree at
/// position `i` yields that tree's tokens, followed by whatever the rest of
/// the text yields.
proof fn lemma_tokenize_render(e: Expr, s: Seq<char>, i: int)
    requires
        reparsable(e),
        0 <= i,
        i + render_spec(e).len() <= s.len(),
        s.subrange(i, i + render_spec(e).len() as int) == render_spec(e),
    ensures
        tokenize_from(s, i) == (match tokenize_from(s, i + render_spec(e).len()) {
            Ok(rest) => Ok::<Seq<Token>, ParseError>(render_tokens(e) + rest),
            Err(er) => Err::<Seq<Token>, ParseError>(er),
        }),
    decreases e,
{
    let m = render_spec(e).len() as int;
    match e {
        Expr::Lit(b) => {
            assert(s[i] == (if b { 'T' } else { 'F' })) by {
                assert(s.subrange(i, i + m)[0] == s[i]);
            }
            match tokenize_from(s, i + 1) {
                Ok(rest) => {
                    assert(seq![Token::Literal(b)] + rest =~= render_tokens(e) + rest);
                },
                Err(_) => {},
            }
        },
        Expr::Var(c) => {
            assert(s[i] == c) by {
                assert(s.subrange(i, i + m)[0] == s[i]);
            }
            assert(char_token(c) == Some(Token::Var(c)));
            match tokenize_from(s, i + 1) {
                Ok(rest) => {
                    assert(seq![Token::Var(c)] + rest =~= render_tokens(e) + rest);
                },
                Err(_) => {},
            }
        },
        Expr::Not(_) => {},
        Expr::BinOp(op, l, r) => {
            let rl = render_spec(*l);
            let rr = render_spec(*r);
            let ll = rl.len() as int;
            let lr = rr.len() as int;
            assert(render_spec(e) == seq!['('] + rl + seq![' ', op_symbol(op), ' '] + rr
                + seq![')']);
            assert(m == ll + lr + 5);
            let pl = i + 1;
            let ps1 = pl + ll;
            let psym = ps1 + 1;
            let ps2 = psym + 1;
            let pr = ps2 + 1;
            let pc = pr + lr;
            assert(s[i] == '(') by {
                assert(s.subrange(i, i + m)[0] == s[i]);
            }
            assert(s[ps1] == ' ') by {
                assert(s.subrange(i, i + m)[1 + ll] == s[ps1]);
            }
            assert(s[psym] == op_symbol(op)) by {
                assert(s.subrange(i, i + m)[2 + ll] == s[psym]);
            }
            assert(s[ps2] == ' ') by {
                assert(s.subrange(i, i + m)[3 + ll] == s[ps2]);
            }
            assert(s[pc] == ')') by {
                assert(s.subrange(i, i + m)[4 + ll + lr] == s[pc]);
            }
            assert(char_token(op_symbol(op)) == Some(Token::BinOp(op)));
            assert forall|k: int| 0 <= k < ll implies s.subrange(pl, pl + ll)[k] == rl[k] by {
                assert(s.subrange(i, i + m)[1 + k] == s[pl + k]);
                assert(render_spec(e)[1 + k] == rl[k]);
            }
            assert(s.subrange(pl, pl + ll) =~= rl);
            assert forall|k: int| 0 <= k < lr implies s.subrange(pr, pr + lr)[k] == rr[k] by {
                assert(s.subrange(i, i + m)[4 + ll + k] == s[pr + k]);
                assert(render_spec(e)[4 + ll + k] == rr[k]);
            }
            assert(s.subrange(pr, pr + lr) =~= rr);
            lemma_tokenize_render(*l, s, pl);
            lemma_tokenize_render(*r, s, pr);
            assert(tokenize_from(s, ps1) == tokenize_from(s, psym));
            assert(tokenize_from(s, ps2) == tokenize_from(s, pr));
            let rtl = render_tokens(*l);
            let rtr = render_tokens(*r);
            match tokenize_from(s, i + m) {
                Ok(rest) => {
                    assert(tokenize_from(s, pc) == Ok::<Seq<Token>, ParseError>(
                        seq![Token::CloseParen] + rest,
                    ));
                    assert(tokenize_from(s, pr) == Ok::<Seq<Token>, ParseError>(
                        rtr + (seq![Token::CloseParen] + rest),
                    ));
                    assert(tokenize_from(s, psym) == Ok::<Seq<Token>, ParseError>(
                        seq![Token::BinOp(op)] + (rtr + (seq![Token::CloseParen] + rest)),
                    ));
                    assert(tokenize_from(s, pl) == Ok::<Seq<Token>, ParseError>(
                        rtl + (seq![Token::BinOp(op)] + (rtr + (seq![Token::CloseParen] + rest))),
                    ));
                    assert(tokenize_from(s, i) == Ok::<Seq<Token>, ParseError>(
                        seq![Token::OpenParen] + (rtl + (seq![Token::BinOp(op)] + (rtr + (seq![
                            Token::CloseParen,
                        ] + rest)))),
                    ));
                    assert(seq![Token::OpenParen] + (rtl + (seq![Token::BinOp(op)] + (rtr + (seq![
                        Token::CloseParen,
                    ] + rest)))) =~= render_tokens(e) + rest);
                },
                Err(er) => {
                    assert(tokenize_from(s, pc) == Err::<Seq<Token>, ParseError>(er));
                    assert(tokenize_from(s, pr) == Err::<Seq<Token>, ParseError>(er));
                    assert(tokenize_from(s, psym) == Err::<Seq<Token>, ParseError>(er));
                    assert(tokenize_from(s, pl) == Err::<Seq<Token>, ParseError>(er));
                    assert(tokenize_from(s, i) == Err::<Seq<Token>, ParseError>(er));
                },
            }
        },
    }
}

/// Parsing a token span that carries the tokens of a reparsable tree yields
/// exactly that tree: as a factor and as a term always, and as a whole
/// expression whenever no binary operator follows the span (otherwise the
/// `expression` rule would keep consuming).
proof fn lemma_parse_render_tokens(e: Expr, t: Seq<Token>, i: int, fuel: nat)
    requires
        reparsable(e),
        0 <= i,
        i + render_tokens(e).len() <= t.len(),
        t.subrange(i, i + render_tokens(e).len() as int) == render_tokens(e),
        fuel + i >= t.len() + 1,
    ensures
        parse_factor_spec(t, i, fuel) == Ok::<(Expr, int), ParseError>(
            (e, i + render_tokens(e).len()),
        ),
        parse_term_spec(t, i, fuel) == Ok::<(Expr, int), ParseError>(
            (e, i + render_tokens(e).len()),
        ),
        (i + render_tokens(e).len() == t.len() || !(t[i + render_tokens(e).len()] is BinOp))
            ==> parse_expr_spec(t, i, fuel) == Ok::<(Expr, int), ParseError>(
            (e, i + render_tokens(e).len()),
        ),
    decreases e,
{
    let n = render_tokens(e).len() as int;
    match e {
        Expr::Lit(b) => {
            assert(t[i] == Token::Literal(b)) by {
                assert(t.subrange(i, i + n)[0] == t[i]);
            }
        },
        Expr::Var(c) => {
            assert(t[i] == Token::Var(c)) by {
                assert(t.subrange(i, i + n)[0] == t[i]);
            }
        },
        Expr::Not(_) => {},
        Expr::BinOp(op, l, r) => {
            let rtl = render_tokens(*l);
            let rtr = render_tokens(*r);
            let ll = rtl.len() as int;
            let lr = rtr.len() as int;
            assert(render_tokens(e) == seq![Token::OpenParen] + rtl + seq![Token::BinOp(op)] + rtr
                + seq![Token::CloseParen]);
            assert(n == ll + lr + 3);
            let pl = i + 1;
            let pop = pl + ll;
            let pr = pop + 1;
            let pc = pr + lr;
            assert(t[i] == Token::OpenParen) by {
                assert(t.subrange(i, i + n)[0] == t[i]);
            }
            assert(t[pop] == Token::BinOp(op)) by {
                assert(t.subrange(i, i + n)[1 + ll] == t[pop]);
            }
            assert(t[pc] == Token::CloseParen) by {
                assert(t.subrange(i, i + n)[2 + ll + lr] == t[pc]);
            }
            assert forall|k: int| 0 <= k < ll implies t.subrange(pl, pl + ll)[k] == rtl[k] by {
                assert(t.subrange(i, i + n)[1 + k] == t[pl + k]);
                assert(render_tokens(e)[1 + k] == rtl[k]);
            }
            assert(t.subrange(pl, pl + ll) =~= rtl);
            assert forall|k: int| 0 <= k < lr implies t.subrange(pr, pr + lr)[k] == rtr[k] by {
                assert(t.subrange(i, i + n)[2 + ll + k] == t[pr + k]);
                assert(render_tokens(e)[2 + ll + k] == rtr[k]);
            }
            assert(t.subrange(pr, pr + lr) =~= rtr);
            lemma_parse_render_tokens(*l, t, pl, (fuel - 1) as nat);
            lemma_parse_render_tokens(*r, t, pr, (fuel - 2) as nat);
            assert(parse_expr_spec(t, pl, (fuel - 1) as nat) == Ok::<(Expr, int), ParseError>(
                (e, pc),
            ));
            assert(parse_factor_spec(t, i, fuel) == Ok::<(Expr, int), ParseError>((e, i + n)));
        },
    }
}

/// Round trip: rendering a tree and parsing the text back returns the same
/// tree, structurally, for every well-formed tree without negations and
/// without a variable named `v` (see [`reparsable`]).
pub proof fn lemma_render_parse_roundtrip(e: Expr)
    requires
        reparsable(e),
    ensures
        parse_spec(render_spec(e)) == Ok::<Expr, ParseError>(e),
{
    let s = render_spec(e);
    assert(s.subrange(0, s.len() as int) =~= s);
    lemma_tokenize_render(e, s, 0);
    assert(tokenize_from(s, s.len() as int) == Ok::<Seq<Token>, ParseError>(Seq::empty()));
    let t = render_tokens(e);
    assert(t + Seq::<Token>::empty() =~= t);
    assert(tokenize_spec(s) == Ok::<Seq<Token>, ParseError>(t));
    assert(t.subrange(0, t.len() as int) =~= t);
    lemma_parse_render_tokens(e, t, 0, (t.len() + 1) as nat);
}

} // verus!
