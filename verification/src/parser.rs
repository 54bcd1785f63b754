//! Construction of an expression tree from a token sequence.
//!
//! Precedence is resolved by successive passes over a flat buffer, highest
//! tier first: parenthesized groups are reduced to sub-trees, then prefix
//! functions take the value or group that follows them, then power, then
//! multiplication and division (implicit multiplication included), then
//! addition and subtraction; the operators of one tier associate to the
//! left, power included.  A leading plus or minus takes a literal zero as
//! its left operand, giving unary-minus semantics.  After all passes
//! exactly one reduced element must remain; it becomes the tree.

use vstd::prelude::*;

use crate::decimal::Dec;
use crate::tokenizer::Token;

verus! {

/// An expression tree node: the operative token, and up to two children.
/// Binary operators fill both, prefix functions only the left, leaves
/// neither; a two-argument logarithm holds its base on the left and its
/// value on the right.
#[derive(Debug)]
pub struct ParseTree {
    pub token: Token,
    pub left: Option<Box<ParseTree>>,
    pub right: Option<Box<ParseTree>>,
}

/// A leaf node carrying a single token.
pub open spec fn leaf(t: Token) -> ParseTree {
    ParseTree { token: t, left: None, right: None }
}

/// A prefix-function node over one operand.
pub open spec fn unary(t: Token, sub: ParseTree) -> ParseTree {
    ParseTree { token: t, left: Some(Box::new(sub)), right: None }
}

/// A binary-operator node over two operands.
pub open spec fn binary(t: Token, l: ParseTree, r: ParseTree) -> ParseTree {
    ParseTree { token: t, left: Some(Box::new(l)), right: Some(Box::new(r)) }
}

/// The literal zero, the implicit left operand of a leading sign.
pub open spec fn zero_leaf() -> ParseTree {
    leaf(Token::Literal(Dec { mantissa: 0, scale: 0 }))
}

impl ParseTree {
    fn new(token: Token) -> (r: Self)
        ensures
            r == leaf(token),
    {
        Self { token, left: None, right: None }
    }
}

/// How a parse can fail: an unbalanced parenthesis, an operator missing an
/// operand, an operand missing an operator, and the internal backstop that
/// no scannable input reaches.
#[derive(Debug, Clone, Copy, PartialEq, Eq, Structural)]
pub enum ParsingError {
    InvalidParenthesis,
    ExpectedExpression,
    ExpectedOperation,
    Unknown,
}

/// An element of the reduction buffer: a not yet consumed token, or an
/// already reduced sub-tree.
#[derive(Debug)]
pub enum Expression {
    Tok(Token),
    Tree(ParseTree),
}

/// A prefix-function token: one that takes the single following value or
/// group as its operand.
pub open spec fn is_func_token(t: Token) -> bool {
    match t {
        Token::Sin | Token::Cos | Token::Tan | Token::Ln | Token::Log | Token::Sqrt | Token::Exp
            | Token::Factorial => true,
        _ => false,
    }
}

/// The operator tokens of one precedence tier: power; then multiplication,
/// division and implicit multiplication; then addition and subtraction.
pub open spec fn tier_has(tier: int, t: Token) -> bool {
    if tier == 1 {
        t == Token::Pow
    } else if tier == 2 {
        t == Token::Mul || t == Token::Div || t == Token::ImplMul
    } else {
        t == Token::Add || t == Token::Sub
    }
}

/// The token a reduced node carries: implicit multiplication is recorded
/// as plain multiplication.
pub open spec fn norm_op(t: Token) -> Token {
    if t == Token::ImplMul {
        Token::Mul
    } else {
        t
    }
}

/// The operand an element provides: a value token becomes a leaf, a
/// reduced sub-tree stands as it is, anything else is no operand.
pub open spec fn operand_of(e: Expression) -> Option<ParseTree> {
    match e {
        Expression::Tok(t) => if t.spec_is_value() {
            Some(leaf(t))
        } else {
            None
        },
        Expression::Tree(tr) => Some(tr),
    }
}

/// Scan for the close parenthesis matching at nesting `depth`: how far
/// into the sequence it stands, and whether it is there at all.
pub open spec fn close_ofs(s: Seq<Token>, depth: int) -> (nat, bool)
    decreases s.len(),
{
    if s.len() == 0 {
        (0, false)
    } else if s[0] == Token::CloseParenthesis {
        if depth == 0 {
            (0, true)
        } else {
            let r = close_ofs(s.skip(1), depth - 1);
            ((1 + r.0) as nat, r.1)
        }
    } else if s[0] == Token::OpenParenthesis {
        let r = close_ofs(s.skip(1), depth + 1);
        ((1 + r.0) as nat, r.1)
    } else {
        let r = close_ofs(s.skip(1), depth);
        ((1 + r.0) as nat, r.1)
    }
}

pub proof fn lemma_close_ofs_bound(s: Seq<Token>, depth: int)
    ensures
        close_ofs(s, depth).1 ==> close_ofs(s, depth).0 < s.len(),
    decreases s.len(),
{
    if s.len() > 0 {
        lemma_close_ofs_bound(s.skip(1), depth - 1);
        lemma_close_ofs_bound(s.skip(1), depth + 1);
        lemma_close_ofs_bound(s.skip(1), depth);
    }
}

/// The grouping pass: each parenthesized group is parsed on its own and
/// replaced by its sub-tree; a close parenthesis with no preceding open,
/// or an open whose close never comes, is an invalid parenthesis.
pub open spec fn sp_group(toks: Seq<Token>, acc: Seq<Expression>) -> Result<
    Seq<Expression>,
    ParsingError,
>
    decreases toks.len(), 0int,
    via sp_group_decreases
{
    if toks.len() == 0 {
        Ok(acc)
    } else if toks[0] == Token::OpenParenthesis {
        let rest = toks.skip(1);
        let r = close_ofs(rest, 0);
        if !r.1 {
            Err(ParsingError::InvalidParenthesis)
        } else {
            let m = r.0 as int;
            match sp_parse(rest.subrange(0, m)) {
                Err(e) => Err(e),
                Ok(tree) => sp_group(
                    rest.subrange(m + 1, rest.len() as int),
                    acc.push(Expression::Tree(tree)),
                ),
            }
        }
    } else if toks[0] == Token::CloseParenthesis {
        Err(ParsingError::InvalidParenthesis)
    } else {
        sp_group(toks.skip(1), acc.push(Expression::Tok(toks[0])))
    }
}

#[via_fn]
proof fn sp_group_decreases(toks: Seq<Token>, acc: Seq<Expression>) {
    if toks.len() > 0 {
        lemma_close_ofs_bound(toks.skip(1), 0);
    }
}

/// The prefix-function pass: each function token takes the operand that
/// directly follows it; a missing or unusable operand is a missing
/// expression.
pub open spec fn sp_funcs(rest: Seq<Expression>, acc: Seq<Expression>) -> Result<
    Seq<Expression>,
    ParsingError,
>
    decreases rest.len(),
{
    if rest.len() == 0 {
        Ok(acc)
    } else {
        let matched = match rest[0] {
            Expression::Tok(t) => is_func_token(t),
            Expression::Tree(_) => false,
        };
        if matched {
            let t = rest[0]->Tok_0;
            if rest.len() == 1 {
                Err(ParsingError::ExpectedExpression)
            } else {
                match operand_of(rest[1]) {
                    None => Err(ParsingError::ExpectedExpression),
                    Some(sub) => sp_funcs(rest.skip(2), acc.push(Expression::Tree(unary(t, sub)))),
                }
            }
        } else {
            sp_funcs(rest.skip(1), acc.push(rest[0]))
        }
    }
}

/// One binary-operator pass: an operator of the tier takes the last
/// reduced element and the next one as operands; at the lowest tier a
/// leading sign takes a literal zero on the left instead.
pub open spec fn sp_ops(rest: Seq<Expression>, acc: Seq<Expression>, tier: int) -> Result<
    Seq<Expression>,
    ParsingError,
>
    decreases rest.len(),
{
    if rest.len() == 0 {
        Ok(acc)
    } else {
        let matched = match rest[0] {
            Expression::Tok(t) => tier_has(tier, t),
            Expression::Tree(_) => false,
        };
        if matched {
            let t = rest[0]->Tok_0;
            let lastop = if acc.len() == 0 {
                if tier == 3 {
                    Some(zero_leaf())
                } else {
                    None
                }
            } else {
                operand_of(acc.last())
            };
            match lastop {
                None => Err(ParsingError::ExpectedExpression),
                Some(l) => if rest.len() == 1 {
                    Err(ParsingError::ExpectedExpression)
                } else {
                    match operand_of(rest[1]) {
                        None => Err(ParsingError::ExpectedExpression),
                        Some(r) => {
                            let popped = if acc.len() == 0 {
                                acc
                            } else {
                                acc.drop_last()
                            };
                            sp_ops(
                                rest.skip(2),
                                popped.push(Expression::Tree(binary(norm_op(t), l, r))),
                                tier,
                            )
                        },
                    }
                },
            }
        } else {
            sp_ops(rest.skip(1), acc.push(rest[0]), tier)
        }
    }
}

/// The final well-formedness check: exactly one reduced element must
/// remain; a single value token becomes a leaf; anything else left over
/// is the internal backstop.
pub open spec fn sp_finish(acc: Seq<Expression>) -> Result<ParseTree, ParsingError> {
    if acc.len() == 1 {
        match acc[0] {
            Expression::Tree(t) => Ok(t),
            Expression::Tok(t) => if t.spec_is_value() {
                Ok(leaf(t))
            } else {
                Err(ParsingError::Unknown)
            },
        }
    } else {
        Err(ParsingError::ExpectedOperation)
    }
}

/// The whole parse of a token sequence: grouping, then the precedence
/// passes from the highest tier down, then the final check.
pub open spec fn sp_parse(toks: Seq<Token>) -> Result<ParseTree, ParsingError>
    decreases toks.len(), 1int,
{
    match sp_group(toks, Seq::empty()) {
        Err(e) => Err(e),
        Ok(exprs) => match sp_funcs(exprs, Seq::empty()) {
            Err(e) => Err(e),
            Ok(e1) => match sp_ops(e1, Seq::empty(), 1) {
                Err(e) => Err(e),
                Ok(e2) => match sp_ops(e2, Seq::empty(), 2) {
                    Err(e) => Err(e),
                    Ok(e3) => match sp_ops(e3, Seq::empty(), 3) {
                        Err(e) => Err(e),
                        Ok(e4) => sp_finish(e4),
                    },
                },
            },
        },
    }
}

fn is_func_x(t: &Token) -> (r: bool)
    ensures
        r == is_func_token(*t),
{
    match t {
        Token::Sin | Token::Cos | Token::Tan | Token::Ln | Token::Log | Token::Sqrt | Token::Exp
            | Token::Factorial => true,
        _ => false,
    }
}

fn operand_x(e: Expression) -> (r: Option<ParseTree>)
    ensures
        r == operand_of(e),
{
    match e {
        Expression::Tok(t) => {
            if t.is_value() {
                Some(ParseTree::new(t))
            } else {
                None
            }
        },
        Expression::Tree(tr) => Some(tr),
    }
}

/// Find the close parenthesis matching at nesting depth zero, scanning
/// `toks[k..end]`.
fn close_scan(toks: &Vec<Token>, k: usize, end: usize) -> (r: Option<usize>)
    requires
        k <= end <= toks@.len(),
    ensures
        r matches Some(m) ==> k <= m < end && close_ofs(toks@.subrange(k as int, end as int), 0)
            == (((m - k) as nat, true)),
        r is None ==> !close_ofs(toks@.subrange(k as int, end as int), 0).1,
{
    let mut i = k;
    let mut d: usize = 0;
    loop
        invariant
            k <= i <= end <= toks@.len(),
            d <= i - k,
            close_ofs(toks@.subrange(k as int, end as int), 0).1 == close_ofs(
                toks@.subrange(i as int, end as int),
                d as int,
            ).1,
            close_ofs(toks@.subrange(k as int, end as int), 0).0 == (i - k) + close_ofs(
                toks@.subrange(i as int, end as int),
                d as int,
            ).0,
        decreases end - i,
    {
        proof {
            assert(toks@.subrange(i as int, end as int).len() == end - i);
        }
        if i >= end {
            return None;
        }
        let t = toks[i];
        proof {
            assert(toks@.subrange(i as int, end as int)[0] == toks@[i as int]);
            assert(toks@.subrange(i as int, end as int).skip(1) =~= toks@.subrange(
                i as int + 1,
                end as int,
            ));
        }
        match t {
            Token::CloseParenthesis => {
                if d == 0 {
                    return Some(i);
                }
                d = d - 1;
                i = i + 1;
            },
            Token::OpenParenthesis => {
                d = d + 1;
                i = i + 1;
            },
            _ => {
                i = i + 1;
            },
        }
    }
}

/// The grouping pass over `toks[start..end]`.
fn group_range(toks: &Vec<Token>, start: usize, end: usize, acc: Vec<Expression>) -> (r: Result<
    Vec<Expression>,
    ParsingError,
>)
    requires
        start <= end <= toks@.len(),
    ensures
        r matches Ok(v) ==> sp_group(toks@.subrange(start as int, end as int), acc@) == Ok::<
            Seq<Expression>,
            ParsingError,
        >(v@),
        r matches Err(e) ==> sp_group(toks@.subrange(start as int, end as int), acc@) == Err::<
            Seq<Expression>,
            ParsingError,
        >(e),
    decreases end - start, 0int,
{
    let ghost sub = toks@.subrange(start as int, end as int);
    proof {
        assert(sub.len() == end - start);
    }
    if start >= end {
        return Ok(acc);
    }
    let t0 = toks[start];
    proof {
        assert(sub[0] == toks@[start as int]);
        assert(sub.skip(1) =~= toks@.subrange(start as int + 1, end as int));
    }
    match t0 {
        Token::OpenParenthesis => {
            match close_scan(toks, start + 1, end) {
                None => Err(ParsingError::InvalidParenthesis),
                Some(m) => {
                    proof {
                        assert(toks@.subrange(start as int + 1, end as int).subrange(
                            0,
                            m - (start + 1),
                        ) =~= toks@.subrange(start as int + 1, m as int));
                        assert(toks@.subrange(start as int + 1, end as int).subrange(
                            m - (start + 1) + 1,
                            toks@.subrange(start as int + 1, end as int).len() as int,
                        ) =~= toks@.subrange(m as int + 1, end as int));
                    }
                    match parse_range(toks, start + 1, m) {
                        Err(e) => Err(e),
                        Ok(tree) => {
                            let mut acc2 = acc;
                            acc2.push(Expression::Tree(tree));
                            group_range(toks, m + 1, end, acc2)
                        },
                    }
                },
            }
        },
        Token::CloseParenthesis => Err(ParsingError::InvalidParenthesis),
        _ => {
            let mut acc2 = acc;
            acc2.push(Expression::Tok(t0));
            group_range(toks, start + 1, end, acc2)
        },
    }
}

/// The prefix-function pass.
fn funcs_pass(rest: Vec<Expression>, acc: Vec<Expression>) -> (r: Result<
    Vec<Expression>,
    ParsingError,
>)
    ensures
        r matches Ok(v) ==> sp_funcs(rest@, acc@) == Ok::<Seq<Expression>, ParsingError>(v@),
        r matches Err(e) ==> sp_funcs(rest@, acc@) == Err::<Seq<Expression>, ParsingError>(e),
    decreases rest@.len(),
{
    let mut rest = rest;
    let mut acc = acc;
    let ghost rest0 = rest@;
    if rest.len() == 0 {
        return Ok(acc);
    }
    let e0 = rest.remove(0);
    proof {
        assert(rest@ =~= rest0.skip(1));
    }
    let matched = match &e0 {
        Expression::Tok(t) => is_func_x(t),
        Expression::Tree(_) => false,
    };
    if matched {
        let t = match e0 {
            Expression::Tok(t) => t,
            Expression::Tree(_) => {
                proof {
                    assert(false);
                }
                Token::Add
            },
        };
        if rest.len() == 0 {
            return Err(ParsingError::ExpectedExpression);
        }
        let e1 = rest.remove(0);
        proof {
            assert(rest@ =~= rest0.skip(2));
        }
        match operand_x(e1) {
            None => Err(ParsingError::ExpectedExpression),
            Some(sub) => {
                acc.push(Expression::Tree(ParseTree {
                    token: t,
                    left: Some(Box::new(sub)),
                    right: None,
                }));
                funcs_pass(rest, acc)
            },
        }
    } else {
        acc.push(e0);
        funcs_pass(rest, acc)
    }
}

fn norm_op_x(t: Token) -> (r: Token)
    ensures
        r == norm_op(t),
{
    match t {
        Token::ImplMul => Token::Mul,
        _ => t,
    }
}

/// One binary-operator pass at the given tier.
fn ops_pass(rest: Vec<Expression>, acc: Vec<Expression>, tier: u8) -> (r: Result<
    Vec<Expression>,
    ParsingError,
>)
    requires
        1 <= tier <= 3,
    ensures
        r matches Ok(v) ==> sp_ops(rest@, acc@, tier as int) == Ok::<Seq<Expression>, ParsingError>(
            v@,
        ),
        r matches Err(e) ==> sp_ops(rest@, acc@, tier as int) == Err::<
            Seq<Expression>,
            ParsingError,
        >(e),
    decreases rest@.len(),
{
    let mut rest = rest;
    let mut acc = acc;
    let ghost rest0 = rest@;
    if rest.len() == 0 {
        return Ok(acc);
    }
    let e0 = rest.remove(0);
    proof {
        assert(rest@ =~= rest0.skip(1));
    }
    let matched = match &e0 {
        Expression::Tok(t) => {
            match tier {
                1 => match t {
                    Token::Pow => true,
                    _ => false,
                },
                2 => match t {
                    Token::Mul | Token::Div | Token::ImplMul => true,
                    _ => false,
                },
                _ => match t {
                    Token::Add | Token::Sub => true,
                    _ => false,
                },
            }
        },
        Expression::Tree(_) => false,
    };
    if matched {
        let t = match e0 {
            Expression::Tok(t) => t,
            Expression::Tree(_) => {
                proof {
                    assert(false);
                }
                Token::Add
            },
        };
        let lastop: Option<ParseTree> = if acc.len() == 0 {
            if tier == 3 {
                Some(ParseTree::new(Token::Literal(Dec { mantissa: 0, scale: 0 })))
            } else {
                None
            }
        } else {
            match acc.pop() {
                Some(le) => operand_x(le),
                None => None,
            }
        };
        match lastop {
            None => Err(ParsingError::ExpectedExpression),
            Some(l) => {
                if rest.len() == 0 {
                    return Err(ParsingError::ExpectedExpression);
                }
                let e1 = rest.remove(0);
                proof {
                    assert(rest@ =~= rest0.skip(2));
                }
                match operand_x(e1) {
                    None => Err(ParsingError::ExpectedExpression),
                    Some(rr) => {
                        let op = norm_op_x(t);
                        acc.push(Expression::Tree(ParseTree {
                            token: op,
                            left: Some(Box::new(l)),
                            right: Some(Box::new(rr)),
                        }));
                        ops_pass(rest, acc, tier)
                    },
                }
            },
        }
    } else {
        acc.push(e0);
        ops_pass(rest, acc, tier)
    }
}

/// The final check on the reduced buffer.
fn finish_pass(acc: Vec<Expression>) -> (r: Result<ParseTree, ParsingError>)
    ensures
        r == sp_finish(acc@),
{
    let mut acc = acc;
    if acc.len() != 1 {
        return Err(ParsingError::ExpectedOperation);
    }
    match acc.remove(0) {
        Expression::Tree(t) => Ok(t),
        Expression::Tok(t) => {
            if t.is_value() {
                Ok(ParseTree::new(t))
            } else {
                Err(ParsingError::Unknown)
            }
        },
    }
}

/// Parse `toks[start..end]` as one whole expression.
fn parse_range(toks: &Vec<Token>, start: usize, end: usize) -> (r: Result<ParseTree, ParsingError>)
    requires
        start <= end <= toks@.len(),
    ensures
        r == sp_parse(toks@.subrange(start as int, end as int)),
    decreases end - start, 1int,
{
    match group_range(toks, start, end, Vec::new()) {
        Err(e) => Err(e),
        Ok(exprs) => match funcs_pass(exprs, Vec::new()) {
            Err(e) => Err(e),
            Ok(e1) => match ops_pass(e1, Vec::new(), 1) {
                Err(e) => Err(e),
                Ok(e2) => match ops_pass(e2, Vec::new(), 2) {
                    Err(e) => Err(e),
                    Ok(e3) => match ops_pass(e3, Vec::new(), 3) {
                        Err(e) => Err(e),
                        Ok(e4) => finish_pass(e4),
                    },
                },
            },
        },
    }
}

/// Build the expression tree of a token sequence, or say how the sequence
/// fails to form one.
pub fn parse(tokens: Vec<Token>) -> (r: Result<ParseTree, ParsingError>)
    ensures
        r == sp_parse(tokens@),
{
    let n = tokens.len();
    let r = parse_range(&tokens, 0, n);
    proof {
        assert(tokens@.subrange(0, n as int) =~= tokens@);
    }
    r
}

} // verus!
