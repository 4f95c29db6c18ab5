use vstd::prelude::*;

verus! {

broadcast use vstd::std_specs::vec::group_vec_axioms;

// ---------------------------------------------------------------------------
// Tokens
// ---------------------------------------------------------------------------

/// The kinds of token of the input language.
#[derive(Clone, Copy, PartialEq, Eq, Structural, Debug)]
pub enum TokenKind {
    Ident,
    Number,
    Plus,
    Minus,
    Star,
    Slash,
    Caret,
    LParen,
    RParen,
    Comma,
    Equals,
}

/// A token: its kind and the range of characters it covers.
#[derive(Clone, Copy, PartialEq, Eq, Structural, Debug)]
pub struct Token {
    pub kind: TokenKind,
    pub start: usize,
    pub end: usize,
}

pub open spec fn is_digit(c: char) -> bool {
    '0' <= c && c <= '9'
}

pub open spec fn is_ident_start(c: char) -> bool {
    ('a' <= c && c <= 'z') || ('A' <= c && c <= 'Z') || c == '_'
}

pub open spec fn is_ident_char(c: char) -> bool {
    is_ident_start(c) || is_digit(c)
}

pub open spec fn is_space(c: char) -> bool {
    c == ' ' || c == '\t' || c == '\n' || c == '\r'
}

/// The kind of a one-character token.
pub open spec fn punct_kind(c: char) -> Option<TokenKind> {
    if c == '+' {
        Some(TokenKind::Plus)
    } else if c == '-' {
        Some(TokenKind::Minus)
    } else if c == '*' {
        Some(TokenKind::Star)
    } else if c == '/' {
        Some(TokenKind::Slash)
    } else if c == '^' {
        Some(TokenKind::Caret)
    } else if c == '(' {
        Some(TokenKind::LParen)
    } else if c == ')' {
        Some(TokenKind::RParen)
    } else if c == ',' {
        Some(TokenKind::Comma)
    } else if c == '=' {
        Some(TokenKind::Equals)
    } else {
        None
    }
}

pub open spec fn tok(k: TokenKind, s: int, e: int) -> Token {
    Token { kind: k, start: s as usize, end: e as usize }
}

/// Whether character `c` extends the identifier or number being read.
pub open spec fn continues(pending: Option<(TokenKind, int)>, c: char) -> bool {
    match pending {
        Some((TokenKind::Ident, _)) => is_ident_char(c),
        Some((TokenKind::Number, _)) => is_digit(c),
        _ => false,
    }
}

/// The identifier or number being read, ended at `i`.
pub open spec fn flush(pending: Option<(TokenKind, int)>, i: int) -> Seq<Token> {
    match pending {
        Some((k, s)) => seq![tok(k, s, i)],
        None => Seq::empty(),
    }
}

/// The tokens from position `i` on, with an identifier or number of the
/// given kind begun at the given position still being read; `None` where a
/// character belongs to no token. Identifiers are a letter or `_` followed
/// by letters, digits and `_`; numbers are runs of digits; blanks separate.
pub open spec fn lex_from(cs: Seq<char>, i: int, pending: Option<(TokenKind, int)>) -> Option<Seq<Token>>
    decreases cs.len() - i,
{
    if i < 0 || i >= cs.len() {
        Some(flush(pending, i))
    } else {
        let c = cs[i];
        if continues(pending, c) {
            lex_from(cs, i + 1, pending)
        } else {
            let rest = if is_space(c) {
                lex_from(cs, i + 1, None)
            } else if is_ident_start(c) {
                lex_from(cs, i + 1, Some((TokenKind::Ident, i)))
            } else if is_digit(c) {
                lex_from(cs, i + 1, Some((TokenKind::Number, i)))
            } else {
                match punct_kind(c) {
                    Some(k) => match lex_from(cs, i + 1, None) {
                        Some(r) => Some(seq![tok(k, i, i + 1)] + r),
                        None => None,
                    },
                    None => None,
                }
            };
            match rest {
                Some(r) => Some(flush(pending, i) + r),
                None => None,
            }
        }
    }
}

/// The tokens of the input.
pub open spec fn lex(cs: Seq<char>) -> Option<Seq<Token>> {
    lex_from(cs, 0, None)
}

pub open spec fn pending_view(p: Option<(TokenKind, usize)>) -> Option<(TokenKind, int)> {
    match p {
        Some((k, s)) => Some((k, s as int)),
        None => None,
    }
}

/// `acc` followed by the tokens still to come.
pub open spec fn after(acc: Seq<Token>, rest: Option<Seq<Token>>) -> Option<Seq<Token>> {
    match rest {
        Some(r) => Some(acc + r),
        None => None,
    }
}

fn is_digit_exec(c: char) -> (r: bool)
    ensures
        r == is_digit(c),
{
    '0' <= c && c <= '9'
}

fn is_ident_start_exec(c: char) -> (r: bool)
    ensures
        r == is_ident_start(c),
{
    ('a' <= c && c <= 'z') || ('A' <= c && c <= 'Z') || c == '_'
}

fn punct_kind_exec(c: char) -> (r: Option<TokenKind>)
    ensures
        r == punct_kind(c),
{
    if c == '+' {
        Some(TokenKind::Plus)
    } else if c == '-' {
        Some(TokenKind::Minus)
    } else if c == '*' {
        Some(TokenKind::Star)
    } else if c == '/' {
        Some(TokenKind::Slash)
    } else if c == '^' {
        Some(TokenKind::Caret)
    } else if c == '(' {
        Some(TokenKind::LParen)
    } else if c == ')' {
        Some(TokenKind::RParen)
    } else if c == ',' {
        Some(TokenKind::Comma)
    } else if c == '=' {
        Some(TokenKind::Equals)
    } else {
        None
    }
}

proof fn lemma_after_assoc(a: Seq<Token>, b: Seq<Token>, rest: Option<Seq<Token>>)
    ensures
        after(a, after(b, rest)) == after(a + b, rest),
{
    match rest {
        Some(r) => {
            assert(a + (b + r) =~= (a + b) + r);
        },
        None => {},
    }
}

/// Splits the input into tokens, as `lex` says.
pub fn tokenize(input: &str) -> (r: Option<Vec<Token>>)
    ensures
        r is None <==> lex(input@) is None,
        r matches Some(ts) ==> lex(input@) == Some(ts@),
{
    let n = input.unicode_len();
    let ghost cs = input@;
    let mut toks: Vec<Token> = Vec::new();
    let mut pending: Option<(TokenKind, usize)> = None;
    let mut i: usize = 0;
    proof {
        assert(toks@ + Seq::<Token>::empty() =~= Seq::<Token>::empty());
        match lex(cs) {
            Some(r) => {
                assert(Seq::<Token>::empty() + r =~= r);
            },
            None => {},
        }
    }
    while i < n
        invariant
            cs == input@,
            n == cs.len(),
            i <= n,
            pending matches Some((_, s)) ==> s < i,
            lex(cs) == after(toks@, lex_from(cs, i as int, pending_view(pending))),
        decreases n - i,
    {
        let c = input.get_char(i);
        let ghost p = pending_view(pending);
        let cont = match pending {
            Some((TokenKind::Ident, _)) => is_ident_start_exec(c) || is_digit_exec(c),
            Some((TokenKind::Number, _)) => is_digit_exec(c),
            _ => false,
        };
        if cont {
            i = i + 1;
        } else {
            let ghost before = toks@;
            match pending {
                Some((k, s)) => {
                    toks.push(Token { kind: k, start: s, end: i });
                },
                None => {},
            }
            proof {
                assert(toks@ =~= before + flush(p, i as int));
                lemma_after_assoc(before, flush(p, i as int), lex_from(cs, i + 1, None));
                lemma_after_assoc(
                    before,
                    flush(p, i as int),
                    lex_from(cs, i + 1, Some((TokenKind::Ident, i as int))),
                );
                lemma_after_assoc(
                    before,
                    flush(p, i as int),
                    lex_from(cs, i + 1, Some((TokenKind::Number, i as int))),
                );
            }
            if c == ' ' || c == '\t' || c == '\n' || c == '\r' {
                pending = None;
            } else if is_ident_start_exec(c) {
                pending = Some((TokenKind::Ident, i));
            } else if is_digit_exec(c) {
                pending = Some((TokenKind::Number, i));
            } else {
                match punct_kind_exec(c) {
                    Some(k) => {
                        let ghost mid = toks@;
                        let t = Token { kind: k, start: i, end: i + 1 };
                        toks.push(t);
                        proof {
                            assert(t == tok(k, i as int, i + 1));
                            assert(toks@ =~= mid + seq![t]);
                            lemma_after_assoc(before, flush(p, i as int), after(seq![t], lex_from(cs, i + 1, None)));
                            lemma_after_assoc(mid, seq![t], lex_from(cs, i + 1, None));
                            assert(after(seq![t], lex_from(cs, i + 1, None)) == match lex_from(cs, i + 1, None) {
                                Some(r) => Some(seq![tok(k, i as int, i + 1)] + r),
                                None => None,
                            });
                        }
                        pending = None;
                    },
                    None => {
                        return None;
                    },
                }
            }
            i = i + 1;
        }
    }
    let ghost before = toks@;
    match pending {
        Some((k, s)) => {
            toks.push(Token { kind: k, start: s, end: n });
        },
        None => {},
    }
    proof {
        assert(toks@ =~= before + flush(pending_view(pending), n as int));
    }
    Some(toks)
}

// ---------------------------------------------------------------------------
// Syntax trees
// ---------------------------------------------------------------------------

/// The infix operators, from loosest to tightest: `+` `-`, then `*` `/`,
/// then `^` (which groups to the right).
#[derive(Clone, Copy, PartialEq, Eq, Structural, Debug)]
pub enum BinOp {
    Add,
    Sub,
    Mul,
    Div,
    Pow,
}

/// An expression of the input language; names and numerals are kept as the
/// range of characters they cover.
#[derive(Debug)]
pub enum Ast {
    Number(usize, usize),
    Symbol(usize, usize),
    Call(usize, usize, Vec<Ast>),
    Binary(BinOp, Box<Ast>, Box<Ast>),
}

/// The model of a syntax tree, with operands as sequences.
pub enum AstV {
    Number(usize, usize),
    Symbol(usize, usize),
    Call(usize, usize, Seq<AstV>),
    Binary(BinOp, Box<AstV>, Box<AstV>),
}

pub open spec fn ast_view(a: Ast) -> AstV
    decreases a,
{
    match a {
        Ast::Number(s, e) => AstV::Number(s, e),
        Ast::Symbol(s, e) => AstV::Symbol(s, e),
        Ast::Call(s, e, args) => AstV::Call(s, e, ast_views(args@)),
        Ast::Binary(op, l, r) => AstV::Binary(op, Box::new(ast_view(*l)), Box::new(ast_view(*r))),
    }
}

pub open spec fn ast_views(t: Seq<Ast>) -> Seq<AstV>
    decreases t,
{
    Seq::new(t.len(), |i: int| if 0 <= i < t.len() { ast_view(t[i]) } else { AstV::Number(0, 0) })
}

impl View for Ast {
    type V = AstV;

    open spec fn view(&self) -> AstV {
        ast_view(*self)
    }
}

/// A line of input: nothing, an assignment `name = expr`, or an expression
/// to evaluate and show.
#[derive(Debug)]
pub enum Statement {
    Empty,
    Assign(usize, usize, Ast),
    Eval(Ast),
}

pub enum StatementV {
    Empty,
    Assign(usize, usize, AstV),
    Eval(AstV),
}

impl View for Statement {
    type V = StatementV;

    open spec fn view(&self) -> StatementV {
        match *self {
            Statement::Empty => StatementV::Empty,
            Statement::Assign(s, e, a) => StatementV::Assign(s, e, a@),
            Statement::Eval(a) => StatementV::Eval(a@),
        }
    }
}

// ---------------------------------------------------------------------------
// Grammar
// ---------------------------------------------------------------------------

pub open spec fn kind_at(ts: Seq<Token>, pos: int, k: TokenKind) -> bool {
    0 <= pos < ts.len() && ts[pos].kind == k
}

/// A sum of products, from token `pos`: the tree and the position after it.
pub open spec fn parse_sum(ts: Seq<Token>, pos: int) -> Option<(AstV, int)>
    decreases ts.len() - pos, 5int,
{
    if pos < 0 || pos > ts.len() {
        None
    } else {
        match parse_product(ts, pos) {
            Some((l, p)) => if pos < p <= ts.len() {
                parse_sum_rest(ts, p, l)
            } else {
                None
            },
            None => None,
        }
    }
}

/// More `+` or `-` operands after `lhs`.
pub open spec fn parse_sum_rest(ts: Seq<Token>, pos: int, lhs: AstV) -> Option<(AstV, int)>
    decreases ts.len() - pos, 5int,
{
    if pos < 0 || pos > ts.len() {
        None
    } else if kind_at(ts, pos, TokenKind::Plus) || kind_at(ts, pos, TokenKind::Minus) {
        let op = if ts[pos].kind == TokenKind::Plus {
            BinOp::Add
        } else {
            BinOp::Sub
        };
        match parse_product(ts, pos + 1) {
            Some((r, p)) => if pos + 1 < p <= ts.len() {
                parse_sum_rest(ts, p, AstV::Binary(op, Box::new(lhs), Box::new(r)))
            } else {
                None
            },
            None => None,
        }
    } else {
        Some((lhs, pos))
    }
}

/// A product of powers.
pub open spec fn parse_product(ts: Seq<Token>, pos: int) -> Option<(AstV, int)>
    decreases ts.len() - pos, 4int,
{
    if pos < 0 || pos > ts.len() {
        None
    } else {
        match parse_power(ts, pos) {
            Some((l, p)) => if pos < p <= ts.len() {
                parse_product_rest(ts, p, l)
            } else {
                None
            },
            None => None,
        }
    }
}

/// More `*` or `/` operands after `lhs`.
pub open spec fn parse_product_rest(ts: Seq<Token>, pos: int, lhs: AstV) -> Option<(AstV, int)>
    decreases ts.len() - pos, 4int,
{
    if pos < 0 || pos > ts.len() {
        None
    } else if kind_at(ts, pos, TokenKind::Star) || kind_at(ts, pos, TokenKind::Slash) {
        let op = if ts[pos].kind == TokenKind::Star {
            BinOp::Mul
        } else {
            BinOp::Div
        };
        match parse_power(ts, pos + 1) {
            Some((r, p)) => if pos + 1 < p <= ts.len() {
                parse_product_rest(ts, p, AstV::Binary(op, Box::new(lhs), Box::new(r)))
            } else {
                None
            },
            None => None,
        }
    } else {
        Some((lhs, pos))
    }
}

/// A primary, raised to a power where `^` follows (grouping to the right).
pub open spec fn parse_power(ts: Seq<Token>, pos: int) -> Option<(AstV, int)>
    decreases ts.len() - pos, 3int,
{
    if pos < 0 || pos > ts.len() {
        None
    } else {
        match parse_primary(ts, pos) {
            Some((b, p)) => if pos < p <= ts.len() {
                if kind_at(ts, p, TokenKind::Caret) {
                    match parse_power(ts, p + 1) {
                        Some((e, p2)) => Some((AstV::Binary(BinOp::Pow, Box::new(b), Box::new(e)), p2)),
                        None => None,
                    }
                } else {
                    Some((b, p))
                }
            } else {
                None
            },
            None => None,
        }
    }
}

/// A numeral, a call `name(args)`, a symbol, or a sum in parentheses.
pub open spec fn parse_primary(ts: Seq<Token>, pos: int) -> Option<(AstV, int)>
    decreases ts.len() - pos, 2int,
{
    if pos < 0 || pos >= ts.len() {
        None
    } else {
        let t = ts[pos];
        if t.kind == TokenKind::Number {
            Some((AstV::Number(t.start, t.end), pos + 1))
        } else if t.kind == TokenKind::Ident {
            if kind_at(ts, pos + 1, TokenKind::LParen) {
                match parse_args(ts, pos + 2) {
                    Some((args, p)) => Some((AstV::Call(t.start, t.end, args), p)),
                    None => None,
                }
            } else {
                Some((AstV::Symbol(t.start, t.end), pos + 1))
            }
        } else if t.kind == TokenKind::LParen {
            match parse_sum(ts, pos + 1) {
                Some((x, p)) => if kind_at(ts, p, TokenKind::RParen) {
                    Some((x, p + 1))
                } else {
                    None
                },
                None => None,
            }
        } else {
            None
        }
    }
}

/// The arguments of a call, after its `(`, up to and past its `)`.
pub open spec fn parse_args(ts: Seq<Token>, pos: int) -> Option<(Seq<AstV>, int)>
    decreases ts.len() - pos, 6int,
{
    if pos < 0 || pos > ts.len() {
        None
    } else if kind_at(ts, pos, TokenKind::RParen) {
        Some((Seq::empty(), pos + 1))
    } else {
        match parse_sum(ts, pos) {
            Some((x, p)) => if pos < p <= ts.len() {
                parse_args_rest(ts, p, seq![x])
            } else {
                None
            },
            None => None,
        }
    }
}

/// More arguments, each after a `,`, then the closing `)`.
pub open spec fn parse_args_rest(ts: Seq<Token>, pos: int, acc: Seq<AstV>) -> Option<(Seq<AstV>, int)>
    decreases ts.len() - pos, 6int,
{
    if pos < 0 || pos > ts.len() {
        None
    } else if kind_at(ts, pos, TokenKind::RParen) {
        Some((acc, pos + 1))
    } else if kind_at(ts, pos, TokenKind::Comma) {
        match parse_sum(ts, pos + 1) {
            Some((x, p)) => if pos + 1 < p <= ts.len() {
                parse_args_rest(ts, p, acc.push(x))
            } else {
                None
            },
            None => None,
        }
    } else {
        None
    }
}

/// A whole line: nothing, `name = expr`, or an expression, with no token
/// left over.
pub open spec fn parse_statement(ts: Seq<Token>) -> Option<StatementV> {
    if ts.len() == 0 {
        Some(StatementV::Empty)
    } else if kind_at(ts, 0, TokenKind::Ident) && kind_at(ts, 1, TokenKind::Equals) {
        match parse_sum(ts, 2) {
            Some((x, p)) => if p == ts.len() {
                Some(StatementV::Assign(ts[0].start, ts[0].end, x))
            } else {
                None
            },
            None => None,
        }
    } else {
        match parse_sum(ts, 0) {
            Some((x, p)) => if p == ts.len() {
                Some(StatementV::Eval(x))
            } else {
                None
            },
            None => None,
        }
    }
}

/// The statement a line of input holds.
pub open spec fn parse_line(cs: Seq<char>) -> Option<StatementV> {
    match lex(cs) {
        Some(ts) => parse_statement(ts),
        None => None,
    }
}

/// Whether every name and numeral of the tree covers a range of at most `n`
/// characters' positions.
pub open spec fn ranges_within(a: AstV, n: int) -> bool
    decreases a,
{
    match a {
        AstV::Number(s, e) => s <= e && e <= n,
        AstV::Symbol(s, e) => s <= e && e <= n,
        AstV::Call(s, e, args) => s <= e && e <= n && all_ranges_within(args, n),
        AstV::Binary(_, l, r) => ranges_within(*l, n) && ranges_within(*r, n),
    }
}

pub open spec fn all_ranges_within(t: Seq<AstV>, n: int) -> bool
    decreases t,
{
    forall|i: int| 0 <= i < t.len() ==> ranges_within(#[trigger] t[i], n)
}

/// Whether every token covers a range of at most `n` positions.
pub open spec fn tokens_within(ts: Seq<Token>, n: int) -> bool {
    forall|i: int| 0 <= i < ts.len() ==> (#[trigger] ts[i]).start <= ts[i].end && ts[i].end <= n
}

proof fn lemma_lex_from_within(cs: Seq<char>, i: int, pending: Option<(TokenKind, int)>)
    requires
        cs.len() <= usize::MAX,
        0 <= i <= cs.len(),
        pending matches Some((_, s)) ==> 0 <= s <= i,
    ensures
        lex_from(cs, i, pending) matches Some(r) ==> tokens_within(r, cs.len() as int),
    decreases cs.len() - i,
{
    if i < cs.len() {
        let c = cs[i];
        if continues(pending, c) {
            lemma_lex_from_within(cs, i + 1, pending);
        } else {
            lemma_lex_from_within(cs, i + 1, None);
            lemma_lex_from_within(cs, i + 1, Some((TokenKind::Ident, i)));
            lemma_lex_from_within(cs, i + 1, Some((TokenKind::Number, i)));
            let f = flush(pending, i);
            assert(tokens_within(f, cs.len() as int));
            match lex_from(cs, i, pending) {
                Some(r) => {
                    assert forall|j: int| 0 <= j < r.len() implies (#[trigger] r[j]).start <= r[j].end
                        && r[j].end <= cs.len() by {
                        if j >= f.len() {
                            if is_space(c) || is_ident_start(c) || is_digit(c) {
                            } else {
                                let k = punct_kind(c)->0;
                                let rest = lex_from(cs, i + 1, None)->0;
                                assert(r == f + (seq![tok(k, i, i + 1)] + rest));
                                if j > f.len() {
                                    assert(r[j] == rest[j - f.len() - 1]);
                                }
                            }
                        }
                    }
                },
                None => {},
            }
        }
    }
}

/// Every token of a line covers a range of its characters.
pub proof fn lemma_lex_within(cs: Seq<char>)
    requires
        cs.len() <= usize::MAX,
    ensures
        lex(cs) matches Some(ts) ==> tokens_within(ts, cs.len() as int),
{
    lemma_lex_from_within(cs, 0, None);
}

/// A parsed sum consumes at least one token, and its names and numerals are
/// ranges of tokens.
pub proof fn lemma_sum_progress(ts: Seq<Token>, pos: int, n: int)
    requires
        tokens_within(ts, n),
    ensures
        parse_sum(ts, pos) matches Some((x, p)) ==> pos < p <= ts.len() && ranges_within(x, n),
    decreases ts.len() - pos, 5int,
{
    if 0 <= pos <= ts.len() {
        lemma_product_progress(ts, pos, n);
        match parse_product(ts, pos) {
            Some((l, p)) => if pos < p <= ts.len() {
                lemma_sum_rest_progress(ts, p, l, n);
            },
            None => {},
        }
    }
}

pub proof fn lemma_sum_rest_progress(ts: Seq<Token>, pos: int, lhs: AstV, n: int)
    requires
        tokens_within(ts, n),
        ranges_within(lhs, n),
    ensures
        parse_sum_rest(ts, pos, lhs) matches Some((x, p)) ==> pos <= p <= ts.len() && ranges_within(x, n),
    decreases ts.len() - pos, 5int,
{
    if 0 <= pos <= ts.len() && (kind_at(ts, pos, TokenKind::Plus) || kind_at(ts, pos, TokenKind::Minus)) {
        let op = if ts[pos].kind == TokenKind::Plus {
            BinOp::Add
        } else {
            BinOp::Sub
        };
        lemma_product_progress(ts, pos + 1, n);
        match parse_product(ts, pos + 1) {
            Some((r, p)) => if pos + 1 < p <= ts.len() {
                lemma_sum_rest_progress(ts, p, AstV::Binary(op, Box::new(lhs), Box::new(r)), n);
            },
            None => {},
        }
    }
}

pub proof fn lemma_product_progress(ts: Seq<Token>, pos: int, n: int)
    requires
        tokens_within(ts, n),
    ensures
        parse_product(ts, pos) matches Some((x, p)) ==> pos < p <= ts.len() && ranges_within(x, n),
    decreases ts.len() - pos, 4int,
{
    if 0 <= pos <= ts.len() {
        lemma_power_progress(ts, pos, n);
        match parse_power(ts, pos) {
            Some((l, p)) => if pos < p <= ts.len() {
                lemma_product_rest_progress(ts, p, l, n);
            },
            None => {},
        }
    }
}

pub proof fn lemma_product_rest_progress(ts: Seq<Token>, pos: int, lhs: AstV, n: int)
    requires
        tokens_within(ts, n),
        ranges_within(lhs, n),
    ensures
        parse_product_rest(ts, pos, lhs) matches Some((x, p)) ==> pos <= p <= ts.len() && ranges_within(x, n),
    decreases ts.len() - pos, 4int,
{
    if 0 <= pos <= ts.len() && (kind_at(ts, pos, TokenKind::Star) || kind_at(ts, pos, TokenKind::Slash)) {
        let op = if ts[pos].kind == TokenKind::Star {
            BinOp::Mul
        } else {
            BinOp::Div
        };
        lemma_power_progress(ts, pos + 1, n);
        match parse_power(ts, pos + 1) {
            Some((r, p)) => if pos + 1 < p <= ts.len() {
                lemma_product_rest_progress(ts, p, AstV::Binary(op, Box::new(lhs), Box::new(r)), n);
            },
            None => {},
        }
    }
}

pub proof fn lemma_power_progress(ts: Seq<Token>, pos: int, n: int)
    requires
        tokens_within(ts, n),
    ensures
        parse_power(ts, pos) matches Some((x, p)) ==> pos < p <= ts.len() && ranges_within(x, n),
    decreases ts.len() - pos, 3int,
{
    if 0 <= pos <= ts.len() {
        lemma_primary_progress(ts, pos, n);
        match parse_primary(ts, pos) {
            Some((b, p)) => if pos < p <= ts.len() && kind_at(ts, p, TokenKind::Caret) {
                lemma_power_progress(ts, p + 1, n);
            },
            None => {},
        }
    }
}

pub proof fn lemma_primary_progress(ts: Seq<Token>, pos: int, n: int)
    requires
        tokens_within(ts, n),
    ensures
        parse_primary(ts, pos) matches Some((x, p)) ==> pos < p <= ts.len() && ranges_within(x, n),
    decreases ts.len() - pos, 2int,
{
    if 0 <= pos < ts.len() {
        let t = ts[pos];
        if t.kind == TokenKind::Ident && kind_at(ts, pos + 1, TokenKind::LParen) {
            lemma_args_progress(ts, pos + 2, n);
        } else if t.kind == TokenKind::LParen {
            lemma_sum_progress(ts, pos + 1, n);
        }
    }
}

pub proof fn lemma_args_progress(ts: Seq<Token>, pos: int, n: int)
    requires
        tokens_within(ts, n),
    ensures
        parse_args(ts, pos) matches Some((a, p)) ==> pos < p <= ts.len() && all_ranges_within(a, n),
    decreases ts.len() - pos, 6int,
{
    if 0 <= pos <= ts.len() && !kind_at(ts, pos, TokenKind::RParen) {
        lemma_sum_progress(ts, pos, n);
        match parse_sum(ts, pos) {
            Some((x, p)) => if pos < p <= ts.len() {
                assert(all_ranges_within(seq![x], n));
                lemma_args_rest_progress(ts, p, seq![x], n);
            },
            None => {},
        }
    }
}

pub proof fn lemma_args_rest_progress(ts: Seq<Token>, pos: int, acc: Seq<AstV>, n: int)
    requires
        tokens_within(ts, n),
        all_ranges_within(acc, n),
    ensures
        parse_args_rest(ts, pos, acc) matches Some((a, p)) ==> pos < p <= ts.len() && all_ranges_within(a, n),
    decreases ts.len() - pos, 6int,
{
    if 0 <= pos <= ts.len() && !kind_at(ts, pos, TokenKind::RParen) && kind_at(ts, pos, TokenKind::Comma) {
        lemma_sum_progress(ts, pos + 1, n);
        match parse_sum(ts, pos + 1) {
            Some((x, p)) => if pos + 1 < p <= ts.len() {
                assert(all_ranges_within(acc.push(x), n)) by {
                    assert forall|i: int| 0 <= i < acc.push(x).len() implies ranges_within(
                        #[trigger] acc.push(x)[i],
                        n,
                    ) by {
                        if i < acc.len() {
                            assert(acc.push(x)[i] == acc[i]);
                        }
                    }
                }
                lemma_args_rest_progress(ts, p, acc.push(x), n);
            },
            None => {},
        }
    }
}

/// Parsing a line never meets a name or numeral outside the line, and
/// every parse of a sum, product, power or primary consumes a token (so
/// the grammar's progress checks never refuse a line).
pub proof fn law_parse_within(cs: Seq<char>)
    requires
        cs.len() <= usize::MAX,
    ensures
        parse_line(cs) matches Some(StatementV::Eval(x)) ==> ranges_within(x, cs.len() as int),
        parse_line(cs) matches Some(StatementV::Assign(s, e, x)) ==> s <= e && e <= cs.len()
            && ranges_within(x, cs.len() as int),
        lex(cs) matches Some(ts) ==> forall|pos: int|
            #![trigger parse_sum(ts, pos)]
            parse_sum(ts, pos) is Some ==> pos < (parse_sum(ts, pos)->0).1 <= ts.len(),
{
    lemma_lex_within(cs);
    match lex(cs) {
        Some(ts) => {
            let n = cs.len() as int;
            lemma_sum_progress(ts, 0, n);
            lemma_sum_progress(ts, 2, n);
            assert forall|pos: int|
                #![trigger parse_sum(ts, pos)]
                parse_sum(ts, pos) is Some implies pos < (parse_sum(ts, pos)->0).1 <= ts.len() by {
                lemma_sum_progress(ts, pos, n);
            }
        },
        None => {},
    }
}

fn kind_at_exec(ts: &Vec<Token>, pos: usize, k: TokenKind) -> (r: bool)
    ensures
        r == kind_at(ts@, pos as int, k),
{
    pos < ts.len() && ts[pos].kind == k
}

/// `parse_sum`.
fn sum(ts: &Vec<Token>, pos: usize) -> (r: Option<(Ast, usize)>)
    requires
        pos <= ts.len(),
    ensures
        match parse_sum(ts@, pos as int) {
            Some((a, p)) => r matches Some((x, q)) && x@ == a && q == p,
            None => r is None,
        },
    decreases ts.len() - pos, 5int,
{
    match product(ts, pos) {
        Some((l, p)) => if pos < p && p <= ts.len() {
            sum_rest(ts, p, l)
        } else {
            None
        },
        None => None,
    }
}

fn sum_rest(ts: &Vec<Token>, pos: usize, lhs: Ast) -> (r: Option<(Ast, usize)>)
    requires
        pos <= ts.len(),
    ensures
        match parse_sum_rest(ts@, pos as int, lhs@) {
            Some((a, p)) => r matches Some((x, q)) && x@ == a && q == p,
            None => r is None,
        },
    decreases ts.len() - pos, 5int,
{
    if kind_at_exec(ts, pos, TokenKind::Plus) || kind_at_exec(ts, pos, TokenKind::Minus) {
        let op = if ts[pos].kind == TokenKind::Plus {
            BinOp::Add
        } else {
            BinOp::Sub
        };
        match product(ts, pos + 1) {
            Some((r, p)) => if pos + 1 < p && p <= ts.len() {
                let b = Ast::Binary(op, Box::new(lhs), Box::new(r));
                proof {
                    reveal_with_fuel(ast_view, 2);
                }
                sum_rest(ts, p, b)
            } else {
                None
            },
            None => None,
        }
    } else {
        Some((lhs, pos))
    }
}

fn product(ts: &Vec<Token>, pos: usize) -> (r: Option<(Ast, usize)>)
    requires
        pos <= ts.len(),
    ensures
        match parse_product(ts@, pos as int) {
            Some((a, p)) => r matches Some((x, q)) && x@ == a && q == p,
            None => r is None,
        },
    decreases ts.len() - pos, 4int,
{
    match power(ts, pos) {
        Some((l, p)) => if pos < p && p <= ts.len() {
            product_rest(ts, p, l)
        } else {
            None
        },
        None => None,
    }
}

fn product_rest(ts: &Vec<Token>, pos: usize, lhs: Ast) -> (r: Option<(Ast, usize)>)
    requires
        pos <= ts.len(),
    ensures
        match parse_product_rest(ts@, pos as int, lhs@) {
            Some((a, p)) => r matches Some((x, q)) && x@ == a && q == p,
            None => r is None,
        },
    decreases ts.len() - pos, 4int,
{
    if kind_at_exec(ts, pos, TokenKind::Star) || kind_at_exec(ts, pos, TokenKind::Slash) {
        let op = if ts[pos].kind == TokenKind::Star {
            BinOp::Mul
        } else {
            BinOp::Div
        };
        match power(ts, pos + 1) {
            Some((r, p)) => if pos + 1 < p && p <= ts.len() {
                let b = Ast::Binary(op, Box::new(lhs), Box::new(r));
                proof {
                    reveal_with_fuel(ast_view, 2);
                }
                product_rest(ts, p, b)
            } else {
                None
            },
            None => None,
        }
    } else {
        Some((lhs, pos))
    }
}

fn power(ts: &Vec<Token>, pos: usize) -> (r: Option<(Ast, usize)>)
    requires
        pos <= ts.len(),
    ensures
        match parse_power(ts@, pos as int) {
            Some((a, p)) => r matches Some((x, q)) && x@ == a && q == p,
            None => r is None,
        },
    decreases ts.len() - pos, 3int,
{
    match primary(ts, pos) {
        Some((b, p)) => if pos < p && p <= ts.len() {
            if kind_at_exec(ts, p, TokenKind::Caret) {
                match power(ts, p + 1) {
                    Some((e, p2)) => {
                        let x = Ast::Binary(BinOp::Pow, Box::new(b), Box::new(e));
                        proof {
                            reveal_with_fuel(ast_view, 2);
                        }
                        Some((x, p2))
                    },
                    None => None,
                }
            } else {
                Some((b, p))
            }
        } else {
            None
        },
        None => None,
    }
}

fn primary(ts: &Vec<Token>, pos: usize) -> (r: Option<(Ast, usize)>)
    requires
        pos <= ts.len(),
    ensures
        match parse_primary(ts@, pos as int) {
            Some((a, p)) => r matches Some((x, q)) && x@ == a && q == p,
            None => r is None,
        },
    decreases ts.len() - pos, 2int,
{
    if pos >= ts.len() {
        return None;
    }
    let t = ts[pos];
    if t.kind == TokenKind::Number {
        Some((Ast::Number(t.start, t.end), pos + 1))
    } else if t.kind == TokenKind::Ident {
        if kind_at_exec(ts, pos + 1, TokenKind::LParen) {
            match args(ts, pos + 2) {
                Some((a, p)) => {
                    let x = Ast::Call(t.start, t.end, a);
                    Some((x, p))
                },
                None => None,
            }
        } else {
            Some((Ast::Symbol(t.start, t.end), pos + 1))
        }
    } else if t.kind == TokenKind::LParen {
        match sum(ts, pos + 1) {
            Some((x, p)) => if kind_at_exec(ts, p, TokenKind::RParen) {
                Some((x, p + 1))
            } else {
                None
            },
            None => None,
        }
    } else {
        None
    }
}

fn args(ts: &Vec<Token>, pos: usize) -> (r: Option<(Vec<Ast>, usize)>)
    requires
        pos <= ts.len(),
    ensures
        match parse_args(ts@, pos as int) {
            Some((a, p)) => r matches Some((x, q)) && ast_views(x@) == a && q == p,
            None => r is None,
        },
    decreases ts.len() - pos, 6int,
{
    if kind_at_exec(ts, pos, TokenKind::RParen) {
        let v: Vec<Ast> = Vec::new();
        assert(ast_views(v@) =~= Seq::<AstV>::empty());
        Some((v, pos + 1))
    } else {
        match sum(ts, pos) {
            Some((x, p)) => if pos < p && p <= ts.len() {
                let mut v: Vec<Ast> = Vec::new();
                v.push(x);
                assert(ast_views(v@) =~= seq![v@[0]@]);
                args_rest(ts, p, v)
            } else {
                None
            },
            None => None,
        }
    }
}

fn args_rest(ts: &Vec<Token>, pos: usize, acc: Vec<Ast>) -> (r: Option<(Vec<Ast>, usize)>)
    requires
        pos <= ts.len(),
    ensures
        match parse_args_rest(ts@, pos as int, ast_views(acc@)) {
            Some((a, p)) => r matches Some((x, q)) && ast_views(x@) == a && q == p,
            None => r is None,
        },
    decreases ts.len() - pos, 6int,
{
    if kind_at_exec(ts, pos, TokenKind::RParen) {
        Some((acc, pos + 1))
    } else if kind_at_exec(ts, pos, TokenKind::Comma) {
        match sum(ts, pos + 1) {
            Some((x, p)) => if pos + 1 < p && p <= ts.len() {
                let mut acc = acc;
                let ghost before = acc@;
                acc.push(x);
                assert(ast_views(acc@) =~= ast_views(before).push(acc@[before.len() as int]@));
                args_rest(ts, p, acc)
            } else {
                None
            },
            None => None,
        }
    } else {
        None
    }
}

/// Parses a line of input, as `parse_line` says; `None` where it is not a
/// statement of the language.
pub fn parse(input: &str) -> (r: Option<Statement>)
    ensures
        match parse_line(input@) {
            Some(s) => r matches Some(x) && x@ == s,
            None => r is None,
        },
{
    let ts = match tokenize(input) {
        Some(ts) => ts,
        None => {
            return None;
        },
    };
    if ts.len() == 0 {
        return Some(Statement::Empty);
    }
    if kind_at_exec(&ts, 0, TokenKind::Ident) && kind_at_exec(&ts, 1, TokenKind::Equals) {
        match sum(&ts, 2) {
            Some((x, p)) => if p == ts.len() {
                Some(Statement::Assign(ts[0].start, ts[0].end, x))
            } else {
                None
            },
            None => None,
        }
    } else {
        match sum(&ts, 0) {
            Some((x, p)) => if p == ts.len() {
                Some(Statement::Eval(x))
            } else {
                None
            },
            None => None,
        }
    }
}

/// The expression the tokens begin with, as `parse_sum` from the first
/// token says.
pub fn parse_expression(ts: &Vec<Token>) -> (r: Option<Ast>)
    ensures
        match parse_sum(ts@, 0) {
            Some((a, _)) => r matches Some(x) && x@ == a,
            None => r is None,
        },
{
    match sum(ts, 0) {
        Some((x, _)) => Some(x),
        None => None,
    }
}

} // verus!
