//! Precedence climbing where the key of an operator is the pair (whitespace
//! before the token after it, algebraic class), compared spacing first.
use vstd::prelude::*;
use crate::lexer::{category_of, digit_value, digit_values, is_digit, numeral_parts, lemma_run_end_bounds, lemma_run_end_exact, run_end, Category, numeral_text, token_at, LexError, Numeral, Token, TokenView, Tokens};
use vstd::string::StringExecFns;
use core::cmp::Ordering;

verus! {

#[derive(Clone, Copy, Debug, PartialEq, Eq, Structural)]
pub enum UnaryOp {
    Neg,
    Sqrt,
}

#[derive(Clone, Copy, Debug, PartialEq, Eq, Structural)]
pub enum BinaryOp {
    Add,
    Sub,
    Mul,
    Div,
}

/// How tightly an operator binds: a smaller spacing binds tighter, and on
/// equal spacing a smaller algebraic class does.
#[derive(Clone, Copy, Debug, PartialEq, Eq, Structural)]
pub struct Precedence {
    pub spacing: usize,
    pub algebraic: usize,
}

/// `Greater` where `a` binds tighter than `b`, `Less` where it binds looser.
pub open spec fn tightness(a: Precedence, b: Precedence) -> Ordering {
    if a.spacing < b.spacing {
        Ordering::Greater
    } else if a.spacing > b.spacing {
        Ordering::Less
    } else if a.algebraic < b.algebraic {
        Ordering::Greater
    } else if a.algebraic > b.algebraic {
        Ordering::Less
    } else {
        Ordering::Equal
    }
}

/// `a` binds at least as tightly as `b`.
pub open spec fn binds_at_least(a: Precedence, b: Precedence) -> bool {
    tightness(a, b) != Ordering::Less
}

/// `a` binds strictly tighter than `b`.
pub open spec fn binds_tighter(a: Precedence, b: Precedence) -> bool {
    tightness(a, b) == Ordering::Greater
}

impl Precedence {
    /// Compares how tightly two precedences bind: `Greater` means that
    /// `self` binds tighter.
    pub fn compare(&self, other: &Precedence) -> (r: Ordering)
        ensures
            r == tightness(*self, *other),
    {
        if self.spacing < other.spacing {
            Ordering::Greater
        } else if self.spacing > other.spacing {
            Ordering::Less
        } else if self.algebraic < other.algebraic {
            Ordering::Greater
        } else if self.algebraic > other.algebraic {
            Ordering::Less
        } else {
            Ordering::Equal
        }
    }
}

/// The loosest precedence, which every operator meets.
pub open spec fn loosest() -> Precedence {
    Precedence { spacing: usize::MAX, algebraic: usize::MAX }
}

pub open spec fn binary_op_of(c: char) -> Option<BinaryOp> {
    if c == '+' {
        Some(BinaryOp::Add)
    } else if c == '-' {
        Some(BinaryOp::Sub)
    } else if c == '*' {
        Some(BinaryOp::Mul)
    } else if c == '/' {
        Some(BinaryOp::Div)
    } else {
        None
    }
}

pub open spec fn algebraic_of(op: BinaryOp) -> usize {
    match op {
        BinaryOp::Mul | BinaryOp::Div => 1,
        BinaryOp::Add | BinaryOp::Sub => 2,
    }
}

impl BinaryOp {
    /// The algebraic class: 1 for `*` and `/`, 2 for `+` and `-`.
    pub fn algebraic(self) -> (r: usize)
        ensures
            r == algebraic_of(self),
    {
        match self {
            BinaryOp::Mul | BinaryOp::Div => 1,
            BinaryOp::Add | BinaryOp::Sub => 2,
        }
    }
}

/// An expression tree as a mathematical value.
pub enum AstView {
    Literal(Seq<u8>, Seq<u8>),
    Unary(UnaryOp, Box<AstView>),
    Binary(BinaryOp, Box<AstView>, Box<AstView>),
}

/// An expression tree.
pub enum Ast {
    Literal(Numeral),
    Unary(UnaryOp, Box<Ast>),
    Binary(BinaryOp, Box<Ast>, Box<Ast>),
}

impl Ast {
    pub open spec fn model(&self) -> AstView
        decreases self,
    {
        match self {
            Ast::Literal(n) => AstView::Literal(n.whole(), n.fraction()),
            Ast::Unary(op, x) => AstView::Unary(*op, Box::new(x.model())),
            Ast::Binary(op, x, y) => AstView::Binary(*op, Box::new(x.model()), Box::new(y.model())),
        }
    }
}

#[derive(Clone, Copy, Debug, PartialEq, Eq, Structural)]
pub enum ParseError {
    /// A run of digits and points that is not a numeral.
    Lexical(LexError),
    /// No expression where one was needed, or tokens left after it.
    Syntax,
}

/// The binary operator at `pos`, with its precedence and where it ends.
pub open spec fn op_at(s: Seq<char>, pos: int) -> Result<Option<(BinaryOp, Precedence, int)>, LexError> {
    match token_at(s, pos) {
        Err(e) => Err(e),
        Ok(Some((TokenView::Symbol(c, sp), k))) => match binary_op_of(c) {
            Some(op) => Ok(Some((op, Precedence { spacing: sp as usize, algebraic: algebraic_of(op) }, k))),
            None => Ok(None),
        },
        Ok(_) => Ok(None),
    }
}

/// The spacing of the token at `pos`.
pub open spec fn spacing_at(s: Seq<char>, pos: int) -> Result<Option<nat>, LexError> {
    match token_at(s, pos) {
        Err(e) => Err(e),
        Ok(None) => Ok(None),
        Ok(Some((t, _))) => Ok(Some(t.spacing())),
    }
}

pub open spec fn ahead(s: Seq<char>, from: int, to: int) -> bool {
    from < to <= s.len()
}

pub open spec fn is_sqrt(w: Seq<char>) -> bool {
    w == seq!['s', 'q', 'r', 't']
}

/// A primary expression at `pos`: a number, or `-` or `sqrt` applied to the
/// expression after it, with where it ends.
pub open spec fn primary_at(s: Seq<char>, pos: int) -> Result<(AstView, int), ParseError>
    decreases s.len() - pos, 0int,
{
    match token_at(s, pos) {
        Err(e) => Err(ParseError::Lexical(e)),
        Ok(None) => Err(ParseError::Syntax),
        Ok(Some((t, k))) => {
            if !ahead(s, pos, k) {
                Err(ParseError::Syntax)
            } else {
                match t {
                    TokenView::Number(w, f, _) => Ok((AstView::Literal(w, f), k)),
                    TokenView::Symbol(c, _) => {
                        if c == '-' {
                            unary_at(s, k, UnaryOp::Neg)
                        } else {
                            Err(ParseError::Syntax)
                        }
                    },
                    TokenView::Word(w, _) => {
                        if is_sqrt(w) {
                            unary_at(s, k, UnaryOp::Sqrt)
                        } else {
                            Err(ParseError::Syntax)
                        }
                    },
                }
            }
        },
    }
}

/// The argument of a unary operator, at `pos`: an expression whose
/// operators bind at least as tightly as (spacing of its first token, 0).
pub open spec fn unary_at(s: Seq<char>, pos: int, op: UnaryOp) -> Result<(AstView, int), ParseError>
    decreases s.len() - pos, 2int,
{
    match spacing_at(s, pos) {
        Err(e) => Err(ParseError::Lexical(e)),
        Ok(None) => Err(ParseError::Syntax),
        Ok(Some(sp)) => match expression_at(s, pos, Precedence { spacing: sp as usize, algebraic: 0 }) {
            Err(e) => Err(e),
            Ok((a, p)) => Ok((AstView::Unary(op, Box::new(a)), p)),
        },
    }
}

/// An expression at `pos` whose operators all bind at least as tightly as
/// `min`.
pub open spec fn expression_at(s: Seq<char>, pos: int, min: Precedence) -> Result<(AstView, int), ParseError>
    decreases s.len() - pos, 1int,
{
    match primary_at(s, pos) {
        Err(e) => Err(e),
        Ok((lhs, p)) => {
            if ahead(s, pos, p) {
                climb(s, lhs, p, min)
            } else {
                Err(ParseError::Syntax)
            }
        },
    }
}

/// Extends `lhs` with the operators from `pos` on that bind at least as
/// tightly as `min`.
pub open spec fn climb(s: Seq<char>, lhs: AstView, pos: int, min: Precedence) -> Result<(AstView, int), ParseError>
    decreases s.len() - pos, 3int,
{
    match op_at(s, pos) {
        Err(e) => Err(ParseError::Lexical(e)),
        Ok(None) => Ok((lhs, pos)),
        Ok(Some((op, prec, k))) => {
            if !binds_at_least(prec, min) {
                Ok((lhs, pos))
            } else if !ahead(s, pos, k) {
                Err(ParseError::Syntax)
            } else {
                match spacing_at(s, k) {
                    Err(e) => Err(ParseError::Lexical(e)),
                    Ok(None) => Err(ParseError::Syntax),
                    Ok(Some(sp)) => {
                        let rhs_prec = Precedence { spacing: sp as usize, algebraic: prec.algebraic };
                        match primary_at(s, k) {
                            Err(e) => Err(e),
                            Ok((rhs, p)) => {
                                if ahead(s, pos, p) {
                                    combine(s, op, lhs, pos, min, absorb(s, rhs, p, rhs_prec))
                                } else {
                                    Err(ParseError::Syntax)
                                }
                            },
                        }
                    },
                }
            }
        },
    }
}

/// Grows a right operand `rhs` by the operators from `pos` on that bind
/// strictly tighter than `rhs_prec`.
pub open spec fn absorb(s: Seq<char>, rhs: AstView, pos: int, rhs_prec: Precedence) -> Result<(AstView, int), ParseError>
    decreases s.len() - pos, 4int,
{
    match op_at(s, pos) {
        Err(e) => Err(ParseError::Lexical(e)),
        Ok(Some((_, q, _))) => {
            if binds_tighter(q, rhs_prec) {
                match climb(s, rhs, pos, rhs_prec) {
                    Err(e) => Err(e),
                    Ok((r, p)) => {
                        if ahead(s, pos, p) {
                            absorb(s, r, p, rhs_prec)
                        } else {
                            Err(ParseError::Syntax)
                        }
                    },
                }
            } else {
                Ok((rhs, pos))
            }
        },
        Ok(None) => Ok((rhs, pos)),
    }
}

/// Joins `lhs` and the right operand found by `absorb`, then climbs on
/// from where the right operand ends.
pub open spec fn combine(
    s: Seq<char>,
    op: BinaryOp,
    lhs: AstView,
    pos: int,
    min: Precedence,
    rhs: Result<(AstView, int), ParseError>,
) -> Result<(AstView, int), ParseError>
    decreases s.len() - pos, 2int,
{
    match rhs {
        Err(e) => Err(e),
        Ok((r, p)) => {
            if ahead(s, pos, p) {
                climb(s, AstView::Binary(op, Box::new(lhs), Box::new(r)), p, min)
            } else {
                Err(ParseError::Syntax)
            }
        },
    }
}

/// What parsing the whole of `s` gives: one expression with no token after it.
pub open spec fn parse_text(s: Seq<char>) -> Result<AstView, ParseError> {
    match expression_at(s, 0, loosest()) {
        Err(e) => Err(e),
        Ok((a, p)) => match token_at(s, p) {
            Ok(None) => Ok(a),
            Ok(Some(_)) => Err(ParseError::Syntax),
            Err(e) => Err(ParseError::Lexical(e)),
        },
    }
}

/// The result of a parse step as a value: the tree and where it ends.
pub open spec fn outcome(r: Result<Ast, ParseError>, p: int) -> Result<(AstView, int), ParseError> {
    match r {
        Ok(a) => Ok((a.model(), p)),
        Err(e) => Err(e),
    }
}

pub open spec fn outcome_model(r: Result<Ast, ParseError>) -> Result<AstView, ParseError> {
    match r {
        Ok(a) => Ok(a.model()),
        Err(e) => Err(e),
    }
}

/// Where `climb` stops: never before `pos`, past it once the operator at
/// `pos` meets `min`, and never past the end of the text.
pub proof fn lemma_climb_advances(s: Seq<char>, lhs: AstView, pos: int, min: Precedence)
    ensures
        climb(s, lhs, pos, min) matches Ok((_, p)) ==> pos <= p,
        (op_at(s, pos) matches Ok(Some((_, q, _))) && binds_at_least(q, min)) ==> (climb(
            s,
            lhs,
            pos,
            min,
        ) matches Ok((_, p)) ==> pos < p),
        pos <= s.len() ==> (climb(s, lhs, pos, min) matches Ok((_, p)) ==> p <= s.len()),
    decreases s.len() - pos,
{
    if let Ok(Some((op, prec, k))) = op_at(s, pos) {
        if binds_at_least(prec, min) && ahead(s, pos, k) {
            if let Ok(Some(sp)) = spacing_at(s, k) {
                let rhs_prec = Precedence { spacing: sp as usize, algebraic: prec.algebraic };
                if let Ok((rhs, p)) = primary_at(s, k) {
                    if ahead(s, pos, p) {
                        if let Ok((r, p2)) = absorb(s, rhs, p, rhs_prec) {
                            if ahead(s, pos, p2) {
                                lemma_climb_advances(s, AstView::Binary(op, Box::new(lhs), Box::new(r)), p2, min);
                            }
                        }
                    }
                }
            }
        }
    }
}

/// Reads the binary operator at the front of `tokens` without moving past it.
fn peek_op(tokens: &mut Tokens) -> (r: Result<Option<(BinaryOp, Precedence)>, LexError>)
    requires
        old(tokens).wf(),
    ensures
        final(tokens).wf(),
        final(tokens).text() == old(tokens).text(),
        final(tokens).position() == old(tokens).position(),
        match op_at(old(tokens).text(), old(tokens).position()) {
            Err(e) => r == Err::<Option<(BinaryOp, Precedence)>, LexError>(e),
            Ok(None) => r == Ok::<Option<(BinaryOp, Precedence)>, LexError>(None),
            Ok(Some((op, q, _))) => r == Ok::<Option<(BinaryOp, Precedence)>, LexError>(Some((op, q))),
        },
{
    match tokens.peek() {
        Err(e) => Err(e),
        Ok(None) => Ok(None),
        Ok(Some(Token::Symbol(c, spacing))) => {
            let op = if c == '+' {
                BinaryOp::Add
            } else if c == '-' {
                BinaryOp::Sub
            } else if c == '*' {
                BinaryOp::Mul
            } else if c == '/' {
                BinaryOp::Div
            } else {
                return Ok(None);
            };
            Ok(Some((op, Precedence { spacing, algebraic: op.algebraic() })))
        },
        Ok(Some(_)) => Ok(None),
    }
}

/// Reads the spacing of the next token without moving past it.
fn peek_spacing(tokens: &mut Tokens) -> (r: Result<usize, ParseError>)
    requires
        old(tokens).wf(),
    ensures
        final(tokens).wf(),
        final(tokens).text() == old(tokens).text(),
        final(tokens).position() == old(tokens).position(),
        match spacing_at(old(tokens).text(), old(tokens).position()) {
            Err(e) => r == Err::<usize, ParseError>(ParseError::Lexical(e)),
            Ok(None) => r == Err::<usize, ParseError>(ParseError::Syntax),
            Ok(Some(sp)) => r matches Ok(x) && x == sp,
        },
{
    match tokens.peek() {
        Err(e) => Err(ParseError::Lexical(e)),
        Ok(None) => Err(ParseError::Syntax),
        Ok(Some(t)) => Ok(t.spacing()),
    }
}

/// Parses a number, or `-` or `sqrt` applied to the expression after it.
pub fn parse_primary(tokens: &mut Tokens) -> (r: Result<Ast, ParseError>)
    requires
        old(tokens).wf(),
    ensures
        final(tokens).wf(),
        final(tokens).text() == old(tokens).text(),
        outcome(r, final(tokens).position()) == primary_at(old(tokens).text(), old(tokens).position()),
        r is Ok ==> old(tokens).position() < final(tokens).position(),
    decreases old(tokens).text().len() - old(tokens).position(), 0int,
{
    let ghost s = tokens.text();
    let ghost pos = tokens.position();
    proof {
        tokens.lemma_position();
        crate::lexer::lemma_token_at_advances(s, pos);
    }
    let token = match tokens.next() {
        Err(e) => return Err(ParseError::Lexical(e)),
        Ok(None) => return Err(ParseError::Syntax),
        Ok(Some(t)) => t,
    };
    let op = match token {
        Token::Number(n, _) => return Ok(Ast::Literal(n)),
        Token::Symbol(c, _) => {
            if c == '-' {
                UnaryOp::Neg
            } else {
                return Err(ParseError::Syntax);
            }
        },
        Token::Word(w, _) => {
            if w.len() == 4 && w[0] == 's' && w[1] == 'q' && w[2] == 'r' && w[3] == 't' {
                assert(w@ =~= seq!['s', 'q', 'r', 't']);
                UnaryOp::Sqrt
            } else {
                assert(!is_sqrt(w@)) by {
                    if is_sqrt(w@) {
                        assert(w@.len() == 4 && w@[0] == 's' && w@[1] == 'q' && w@[2] == 'r' && w@[3] == 't');
                    }
                }
                return Err(ParseError::Syntax);
            }
        },
    };
    let spacing = peek_spacing(tokens)?;
    let arg = parse_expression(tokens, Precedence { spacing, algebraic: 0 })?;
    Ok(Ast::Unary(op, Box::new(arg)))
}

/// Parses an expression whose operators all bind at least as tightly as `min`.
pub fn parse_expression(tokens: &mut Tokens, min: Precedence) -> (r: Result<Ast, ParseError>)
    requires
        old(tokens).wf(),
    ensures
        final(tokens).wf(),
        final(tokens).text() == old(tokens).text(),
        outcome(r, final(tokens).position()) == expression_at(old(tokens).text(), old(tokens).position(), min),
        r is Ok ==> old(tokens).position() < final(tokens).position(),
    decreases old(tokens).text().len() - old(tokens).position(), 1int,
{
    let lhs = parse_primary(tokens)?;
    proof {
        tokens.lemma_position();
    }
    parse_precedence(lhs, tokens, min)
}

/// Extends `lhs` with the operators ahead that bind at least as tightly as
/// `min`; returns `lhs` itself where there are none.
#[verifier::loop_isolation(false)]
pub fn parse_precedence(lhs: Ast, tokens: &mut Tokens, min: Precedence) -> (r: Result<Ast, ParseError>)
    requires
        old(tokens).wf(),
    ensures
        final(tokens).wf(),
        final(tokens).text() == old(tokens).text(),
        outcome(r, final(tokens).position()) == climb(old(tokens).text(), lhs.model(), old(tokens).position(), min),
        r is Ok ==> old(tokens).position() <= final(tokens).position(),
    decreases old(tokens).text().len() - old(tokens).position(), 2int,
{
    let ghost s = tokens.text();
    let ghost pos0 = tokens.position();
    let ghost lhs0 = lhs.model();
    let ghost target = climb(s, lhs0, pos0, min);
    let mut lhs = lhs;
    loop
        invariant
            tokens.wf(),
            tokens.text() == s,
            s == old(tokens).text(),
            pos0 == old(tokens).position(),
            target == climb(s, lhs0, pos0, min),
            pos0 <= tokens.position(),
            climb(s, lhs.model(), tokens.position(), min) == target,
        decreases s.len() - tokens.position(),
    {
        let ghost pos = tokens.position();
        proof {
            tokens.lemma_position();
            crate::lexer::lemma_token_at_advances(s, pos);
        }
        let (op, prec) = match peek_op(tokens) {
            Err(e) => return Err(ParseError::Lexical(e)),
            Ok(None) => return Ok(lhs),
            Ok(Some(x)) => x,
        };
        if matches!(prec.compare(&min), Ordering::Less) {
            return Ok(lhs);
        }
        let _ = tokens.next();
        let spacing = peek_spacing(tokens)?;
        let rhs_prec = Precedence { spacing, algebraic: prec.algebraic };
        let mut rhs = parse_primary(tokens)?;
        let ghost absorbed = absorb(s, rhs.model(), tokens.position(), rhs_prec);
        loop
            invariant
                tokens.wf(),
                tokens.text() == s,
                s == old(tokens).text(),
                pos0 == old(tokens).position(),
                target == climb(s, lhs0, pos0, min),
                pos0 <= pos < tokens.position(),
                absorb(s, rhs.model(), tokens.position(), rhs_prec) == absorbed,
                combine(s, op, lhs.model(), pos, min, absorbed) == target,
            decreases s.len() - tokens.position(),
        {
            let ghost p = tokens.position();
            proof {
                tokens.lemma_position();
            }
            match peek_op(tokens) {
                Err(e) => return Err(ParseError::Lexical(e)),
                Ok(Some((_, q))) => {
                    if matches!(q.compare(&rhs_prec), Ordering::Greater) {
                        proof {
                            lemma_climb_advances(s, rhs.model(), p, rhs_prec);
                        }
                        rhs = parse_precedence(rhs, tokens, rhs_prec)?;
                        proof {
                            tokens.lemma_position();
                        }
                    } else {
                        break;
                    }
                },
                Ok(None) => break,
            }
        }
        lhs = Ast::Binary(op, Box::new(lhs), Box::new(rhs));
    }
}

/// Parses the whole of `string` as one expression.
pub fn parse(string: &str) -> (r: Result<Ast, ParseError>)
    ensures
        outcome_model(r) == parse_text(string@),
{
    let mut tokens = Tokens::new(string);
    let expr = parse_expression(&mut tokens, Precedence { spacing: usize::MAX, algebraic: usize::MAX })?;
    match tokens.next() {
        Ok(None) => Ok(expr),
        Ok(Some(_)) => Err(ParseError::Syntax),
        Err(e) => Err(ParseError::Lexical(e)),
    }
}

pub open spec fn unary_text(op: UnaryOp) -> Seq<char> {
    match op {
        UnaryOp::Neg => seq!['-'],
        UnaryOp::Sqrt => seq!['s', 'q', 'r', 't'],
    }
}

pub open spec fn binary_text(op: BinaryOp) -> Seq<char> {
    match op {
        BinaryOp::Add => seq!['+'],
        BinaryOp::Sub => seq!['-'],
        BinaryOp::Mul => seq!['*'],
        BinaryOp::Div => seq!['/'],
    }
}

/// The fully parenthesised text of a tree: `(op x)` for a unary operation,
/// `(x op y)` for a binary one.
pub open spec fn render_text(a: AstView) -> Seq<char>
    decreases a,
{
    match a {
        AstView::Literal(w, f) => numeral_text(w, f),
        AstView::Unary(op, x) => seq!['('] + unary_text(op) + seq![' '] + render_text(*x) + seq![')'],
        AstView::Binary(op, x, y) => seq!['('] + render_text(*x) + seq![' '] + binary_text(op) + seq![' ']
            + render_text(*y) + seq![')'],
    }
}

impl UnaryOp {
    pub fn text(self) -> (r: &'static str)
        ensures
            r@ == unary_text(self),
    {
        proof {
            reveal_strlit("-");
            reveal_strlit("sqrt");
        }
        match self {
            UnaryOp::Neg => "-",
            UnaryOp::Sqrt => "sqrt",
        }
    }
}

impl BinaryOp {
    pub fn text(self) -> (r: &'static str)
        ensures
            r@ == binary_text(self),
    {
        proof {
            reveal_strlit("+");
            reveal_strlit("-");
            reveal_strlit("*");
            reveal_strlit("/");
        }
        match self {
            BinaryOp::Add => "+",
            BinaryOp::Sub => "-",
            BinaryOp::Mul => "*",
            BinaryOp::Div => "/",
        }
    }
}

impl Ast {
    /// Appends the fully parenthesised text of the tree to `out`.
    pub fn render_into(&self, out: &mut String)
        ensures
            final(out)@ == old(out)@ + render_text(self.model()),
        decreases self,
    {
        proof {
            reveal_strlit("(");
            reveal_strlit(")");
            reveal_strlit(" ");
        }
        let ghost start = out@;
        match self {
            Ast::Literal(n) => n.render_into(out),
            Ast::Unary(op, x) => {
                out.append("(");
                out.append(op.text());
                out.append(" ");
                x.render_into(out);
                out.append(")");
                assert(out@ =~= start + render_text(self.model()));
            },
            Ast::Binary(op, x, y) => {
                out.append("(");
                x.render_into(out);
                out.append(" ");
                out.append(op.text());
                out.append(" ");
                y.render_into(out);
                out.append(")");
                assert(out@ =~= start + render_text(self.model()));
            },
        }
    }

    /// The fully parenthesised text of the tree, such as `(1 * (2 + 3))`.
    pub fn render(&self) -> (r: String)
        ensures
            r@ == render_text(self.model()),
    {
        let mut out = String::new();
        self.render_into(&mut out);
        assert(out@ =~= render_text(self.model()));
        out
    }
}

/// A parse of the whole text succeeds exactly where the expression at its
/// start is followed by whitespace alone, and then gives that expression:
/// a token left over fails the parse.
pub proof fn lemma_trailing_tokens_rejected(s: Seq<char>, a: AstView, p: int)
    requires
        expression_at(s, 0, loosest()) == Ok::<(AstView, int), ParseError>((a, p)),
    ensures
        0 < p <= s.len(),
        parse_text(s) is Ok <==> (forall|i: int| p <= i < s.len() ==> category_of(#[trigger] s[i]) == Category::Whitespace),
        parse_text(s) is Ok ==> parse_text(s) == Ok::<AstView, ParseError>(a),
{
    let (lhs, p1) = primary_at(s, 0)->Ok_0;
    assert(ahead(s, 0, p1));
    assert(climb(s, lhs, p1, loosest()) == Ok::<(AstView, int), ParseError>((a, p)));
    lemma_climb_advances(s, lhs, p1, loosest());
    lemma_run_end_bounds(s, p, Category::Whitespace);
    if forall|i: int| p <= i < s.len() ==> category_of(#[trigger] s[i]) == Category::Whitespace {
        lemma_run_end_exact(s, p, s.len() as int, Category::Whitespace);
    }
}

/// Parsing is a function of the text: equal texts give equal results.
pub proof fn lemma_parse_deterministic(s1: Seq<char>, s2: Seq<char>)
    requires
        s1 == s2,
    ensures
        parse_text(s1) == parse_text(s2),
{
}

/// Text with no token, or whose first token is a symbol other than `-`,
/// has no parse.
pub proof fn lemma_no_leading_expression(s: Seq<char>, j: int)
    requires
        0 <= j <= s.len(),
        forall|i: int| 0 <= i < j ==> category_of(#[trigger] s[i]) == Category::Whitespace,
        j == s.len() || (category_of(s[j]) == Category::Symbol && s[j] != '-'),
    ensures
        parse_text(s) == Err::<AstView, ParseError>(ParseError::Syntax),
{
    lemma_run_end_exact(s, 0, j, Category::Whitespace);
}

proof fn lemma_token_digit(s: Seq<char>, i: int, j: int)
    requires
        0 <= i <= j < s.len(),
        forall|m: int| i <= m < j ==> #[trigger] s[m] == ' ',
        is_digit(s[j]),
        j + 1 == s.len() || category_of(s[j + 1]) != Category::Digit,
    ensures
        token_at(s, i) == Ok::<Option<(TokenView, int)>, LexError>(
            Some((TokenView::Number(seq![digit_value(s[j])], Seq::empty(), (j - i) as nat), j + 1)),
        ),
{
    lemma_run_end_exact(s, i, j, Category::Whitespace);
    lemma_run_end_exact(s, j, j + 1, Category::Digit);
    let t = s.subrange(j, j + 1);
    assert(t =~= seq![s[j]]);
    assert(digit_values(t) =~= seq![digit_value(s[j])]);
    assert(numeral_parts(t) == Some((seq![digit_value(s[j])], Seq::<u8>::empty())));
}

proof fn lemma_token_symbol(s: Seq<char>, i: int, j: int)
    requires
        0 <= i <= j < s.len(),
        forall|m: int| i <= m < j ==> #[trigger] s[m] == ' ',
        category_of(s[j]) == Category::Symbol,
    ensures
        token_at(s, i) == Ok::<Option<(TokenView, int)>, LexError>(
            Some((TokenView::Symbol(s[j], (j - i) as nat), j + 1)),
        ),
{
    lemma_run_end_exact(s, i, j, Category::Whitespace);
}

pub open spec fn digit_literal(c: char) -> AstView {
    AstView::Literal(seq![digit_value(c)], Seq::empty())
}

pub open spec fn is_operator(c: char) -> bool {
    c == '+' || c == '-' || c == '*' || c == '/'
}

/// With the same spacing around both operators of `x op y op z` (three
/// digits), the operator of the lower algebraic class binds first, and of
/// two of one class the left one does.
pub proof fn lemma_equal_spacing_follows_algebraic_class(s: Seq<char>, n: int)
    requires
        0 <= n,
        s.len() == 4 * n + 5,
        is_digit(s[0]),
        is_digit(s[2 * n + 2]),
        is_digit(s[4 * n + 4]),
        is_operator(s[n + 1]),
        is_operator(s[3 * n + 3]),
        forall|i: int|
            0 <= i < s.len() && i != 0 && i != n + 1 && i != 2 * n + 2 && i != 3 * n + 3 && i != 4 * n
                + 4 ==> #[trigger] s[i] == ' ',
    ensures
        ({
            let op1 = binary_op_of(s[n + 1])->Some_0;
            let op2 = binary_op_of(s[3 * n + 3])->Some_0;
            let x = digit_literal(s[0]);
            let y = digit_literal(s[2 * n + 2]);
            let z = digit_literal(s[4 * n + 4]);
            &&& algebraic_of(op1) <= algebraic_of(op2) ==> parse_text(s) == Ok::<AstView, ParseError>(
                AstView::Binary(op2, Box::new(AstView::Binary(op1, Box::new(x), Box::new(y))), Box::new(z)),
            )
            &&& algebraic_of(op1) > algebraic_of(op2) ==> parse_text(s) == Ok::<AstView, ParseError>(
                AstView::Binary(op1, Box::new(x), Box::new(AstView::Binary(op2, Box::new(y), Box::new(z)))),
            )
        }),
{
    let len = s.len() as int;
    let a = n;
    lemma_token_digit(s, 0, 0);
    lemma_token_symbol(s, 1, a + 1);
    lemma_token_digit(s, a + 2, 2 * a + 2);
    lemma_token_symbol(s, 2 * a + 3, 3 * a + 3);
    lemma_token_digit(s, 3 * a + 4, 4 * a + 4);
    lemma_run_end_exact(s, len, len, Category::Whitespace);
    let op1 = binary_op_of(s[a + 1])->Some_0;
    let op2 = binary_op_of(s[3 * a + 3])->Some_0;
    let x = digit_literal(s[0]);
    let y = digit_literal(s[2 * a + 2]);
    let z = digit_literal(s[4 * a + 4]);
    let p1 = Precedence { spacing: n as usize, algebraic: algebraic_of(op1) };
    let p2 = Precedence { spacing: n as usize, algebraic: algebraic_of(op2) };
    assert(op_at(s, 1) == Ok::<_, LexError>(Some((op1, p1, a + 2))));
    assert(op_at(s, 2 * a + 3) == Ok::<_, LexError>(Some((op2, p2, 3 * a + 4))));
    assert(op_at(s, len) == Ok::<Option<(BinaryOp, Precedence, int)>, LexError>(None));
    assert(primary_at(s, 0) == Ok::<_, ParseError>((x, 1int)));
    assert(primary_at(s, a + 2) == Ok::<_, ParseError>((y, 2 * a + 3)));
    assert(primary_at(s, 3 * a + 4) == Ok::<_, ParseError>((z, len)));
    if algebraic_of(op1) <= algebraic_of(op2) {
        assert(absorb(s, y, 2 * a + 3, p1) == Ok::<_, ParseError>((y, 2 * a + 3)));
        let xy = AstView::Binary(op1, Box::new(x), Box::new(y));
        assert(absorb(s, z, len, p2) == Ok::<_, ParseError>((z, len)));
        let xyz = AstView::Binary(op2, Box::new(xy), Box::new(z));
        assert(climb(s, xyz, len, loosest()) == Ok::<_, ParseError>((xyz, len)));
        assert(climb(s, xy, 2 * a + 3, loosest()) == Ok::<_, ParseError>((xyz, len)));
        assert(climb(s, x, 1, loosest()) == Ok::<_, ParseError>((xyz, len)));
    } else {
        assert(absorb(s, z, len, p2) == Ok::<_, ParseError>((z, len)));
        let yz = AstView::Binary(op2, Box::new(y), Box::new(z));
        assert(climb(s, yz, len, p1) == Ok::<_, ParseError>((yz, len)));
        assert(climb(s, y, 2 * a + 3, p1) == Ok::<_, ParseError>((yz, len)));
        assert(absorb(s, yz, len, p1) == Ok::<_, ParseError>((yz, len)));
        assert(absorb(s, y, 2 * a + 3, p1) == Ok::<_, ParseError>((yz, len)));
        let xyz = AstView::Binary(op1, Box::new(x), Box::new(yz));
        assert(climb(s, xyz, len, loosest()) == Ok::<_, ParseError>((xyz, len)));
        assert(climb(s, x, 1, loosest()) == Ok::<_, ParseError>((xyz, len)));
    }
}

} // verus!
