//! The laws the library states about its three stages together: what the
//! evaluator returns on two-operand expressions and on the previous-answer
//! token, that a zero divisor is reported as division by zero and nothing
//! else, that the whole pipeline is a function of its two inputs, and that
//! a parse never hands the evaluator a tree on which it reports its
//! internal backstop error.

use vstd::prelude::*;

use crate::compute::sp_compute;
use crate::compute::sp_compute_tree;
use crate::compute::ComputeError;
use crate::decimal::add_of;
use crate::decimal::div_of;
use crate::decimal::mul_of;
use crate::decimal::sub_of;
use crate::decimal::Dec;
use crate::parser::binary;
use crate::parser::close_ofs;
use crate::parser::is_func_token;
use crate::parser::leaf;
use crate::parser::lemma_close_ofs_bound;
use crate::parser::operand_of;
use crate::parser::sp_finish;
use crate::parser::sp_funcs;
use crate::parser::sp_group;
use crate::parser::sp_ops;
use crate::parser::sp_parse;
use crate::parser::unary;
use crate::parser::zero_leaf;
use crate::parser::Expression;
use crate::parser::ParseTree;
use crate::parser::ParsingError;
use crate::tokenizer::spec_tokenize;
use crate::tokenizer::token_valid;
use crate::tokenizer::tokens_valid;
use crate::tokenizer::Token;

verus! {

/// A well-formed tree: every node's token is evaluable and has the exact
/// arity it requires (a logarithm may have one or two operands), and every
/// literal lies within the decimal's ranges.
pub open spec fn wf(t: ParseTree) -> bool
    decreases t,
{
    &&& match t.token {
        Token::Add | Token::Sub | Token::Mul | Token::Div | Token::Pow => t.left is Some
            && t.right is Some,
        Token::Sin | Token::Cos | Token::Tan | Token::Ln | Token::Sqrt | Token::Exp
            | Token::Factorial => t.left is Some && t.right is None,
        Token::Log => t.left is Some,
        Token::Literal(d) => d.valid() && t.left is None && t.right is None,
        Token::PI | Token::E | Token::Ans => t.left is None && t.right is None,
        _ => false,
    }
    &&& match t.left {
        Some(l) => wf(*l),
        None => true,
    }
    &&& match t.right {
        Some(r) => wf(*r),
        None => true,
    }
}

/// What one binary operator token computes on two decimals.
pub open spec fn bin_op_of(op: Token, a: Dec, b: Dec) -> Option<Dec> {
    match op {
        Token::Add => add_of(a, b),
        Token::Sub => sub_of(a, b),
        Token::Mul => mul_of(a, b),
        Token::Div => div_of(a, b),
        _ => None,
    }
}

/// For every valid two-operand expression `a OP b` over the four
/// arithmetic operators, with a non-zero `b` under division, evaluation
/// returns exactly what the decimal type's checked operation gives on the
/// two literals, and overflow is the only possible failure.
pub proof fn lemma_binary_literal_eval(op: Token, a: Dec, b: Dec, ans: Option<Dec>)
    requires
        a.valid(),
        b.valid(),
        op == Token::Add || op == Token::Sub || op == Token::Mul || op == Token::Div,
        op == Token::Div ==> !b.is_zero(),
    ensures
        sp_compute_tree(binary(op, leaf(Token::Literal(a)), leaf(Token::Literal(b))), ans) == (
        match bin_op_of(op, a, b) {
            None => Err::<Dec, ComputeError>(ComputeError::Overflow),
            Some(c) => Ok::<Dec, ComputeError>(c),
        }),
{
    reveal_with_fuel(sp_compute, 3);
}

/// Evaluating the previous-answer token with no prior result fails with
/// exactly the no-answer error.
pub proof fn lemma_ans_no_previous()
    ensures
        sp_compute_tree(leaf(Token::Ans), None) == Err::<Dec, ComputeError>(ComputeError::NoAns),
{
}

/// Evaluating the previous-answer token returns the previous decimal
/// exactly.
pub proof fn lemma_ans_previous(d: Dec)
    requires
        d.valid(),
    ensures
        sp_compute_tree(leaf(Token::Ans), Some(d)) == Ok::<Dec, ComputeError>(d),
{
}

/// Whenever the divisor of a division node evaluates to zero, the whole
/// node fails with division by zero — never overflow, never a value.
pub proof fn lemma_div_by_zero(t: ParseTree, ans: Option<Dec>)
    requires
        t.token == Token::Div,
        sp_compute(t.right, ans) matches Ok(z) && z.is_zero(),
    ensures
        sp_compute_tree(t, ans) == Err::<Dec, ComputeError>(ComputeError::DivByZero),
{
}

/// The result of running the whole pipeline on one line of text: nothing
/// on a lexical failure, else the parse error, else the evaluation's
/// outcome.
pub open spec fn sp_eval_text(s: Seq<char>, ans: Option<Dec>) -> Option<
    Result<Result<Dec, ComputeError>, ParsingError>,
> {
    match spec_tokenize(s) {
        None => None,
        Some(ts) => match sp_parse(ts) {
            Err(e) => Some(Err(e)),
            Ok(tree) => Some(Ok(sp_compute_tree(tree, ans))),
        },
    }
}

/// The pipeline is deterministic and side-effect-free: each stage's result
/// is a function of the source text and the previous answer alone — the
/// executable stages are pinned to those functions by their contracts —
/// so two runs on the same inputs agree.
pub proof fn lemma_pipeline_deterministic(
    s: Seq<char>,
    ans: Option<Dec>,
    r1: Option<Result<Result<Dec, ComputeError>, ParsingError>>,
    r2: Option<Result<Result<Dec, ComputeError>, ParsingError>>,
)
    requires
        r1 == sp_eval_text(s, ans),
        r2 == sp_eval_text(s, ans),
    ensures
        r1 == r2,
{
}

/// The nesting depth after reading the sequence from depth `d`, or nothing
/// when a close parenthesis arrives with no group open.
pub open spec fn depth_after(toks: Seq<Token>, d: int) -> Option<int>
    decreases toks.len(),
{
    if toks.len() == 0 {
        Some(d)
    } else if toks[0] == Token::OpenParenthesis {
        depth_after(toks.skip(1), d + 1)
    } else if toks[0] == Token::CloseParenthesis {
        if d <= 0 {
            None
        } else {
            depth_after(toks.skip(1), d - 1)
        }
    } else {
        depth_after(toks.skip(1), d)
    }
}

/// Balanced parentheses: every close matches an open, and every open is
/// closed.
pub open spec fn balanced(toks: Seq<Token>) -> bool {
    depth_after(toks, 0) == Some(0int)
}

proof fn lemma_depth_concat(a: Seq<Token>, b: Seq<Token>, d: int)
    ensures
        depth_after(a + b, d) == (match depth_after(a, d) {
            None => None,
            Some(e) => depth_after(b, e),
        }),
    decreases a.len(),
{
    if a.len() == 0 {
        assert(a + b =~= b);
    } else {
        assert((a + b)[0] == a[0]);
        assert((a + b).skip(1) =~= a.skip(1) + b);
        if a[0] == Token::OpenParenthesis {
            lemma_depth_concat(a.skip(1), b, d + 1);
        } else if a[0] == Token::CloseParenthesis {
            if d > 0 {
                lemma_depth_concat(a.skip(1), b, d - 1);
            }
        } else {
            lemma_depth_concat(a.skip(1), b, d);
        }
    }
}

proof fn lemma_depth_shift(s: Seq<Token>, d: int, k: int)
    requires
        k >= 0,
    ensures
        depth_after(s, d) matches Some(e) ==> depth_after(s, d + k) == Some(e + k),
    decreases s.len(),
{
    if s.len() > 0 {
        if s[0] == Token::OpenParenthesis {
            lemma_depth_shift(s.skip(1), d + 1, k);
        } else if s[0] == Token::CloseParenthesis {
            if d > 0 {
                lemma_depth_shift(s.skip(1), d - 1, k);
            }
        } else {
            lemma_depth_shift(s.skip(1), d, k);
        }
    }
}

proof fn lemma_close_ofs_char(s: Seq<Token>, depth: int)
    ensures
        close_ofs(s, depth).1 ==> 0 <= close_ofs(s, depth).0 < s.len() && s[close_ofs(
            s,
            depth,
        ).0 as int] == Token::CloseParenthesis,
    decreases s.len(),
{
    lemma_close_ofs_bound(s, depth);
    if s.len() > 0 {
        if s[0] == Token::CloseParenthesis && depth == 0 {
        } else if s[0] == Token::CloseParenthesis {
            lemma_close_ofs_char(s.skip(1), depth - 1);
            if close_ofs(s.skip(1), depth - 1).1 {
                assert(s.skip(1)[close_ofs(s.skip(1), depth - 1).0 as int] == s[1 + close_ofs(
                    s.skip(1),
                    depth - 1,
                ).0 as int]);
            }
        } else if s[0] == Token::OpenParenthesis {
            lemma_close_ofs_char(s.skip(1), depth + 1);
            if close_ofs(s.skip(1), depth + 1).1 {
                assert(s.skip(1)[close_ofs(s.skip(1), depth + 1).0 as int] == s[1 + close_ofs(
                    s.skip(1),
                    depth + 1,
                ).0 as int]);
            }
        } else {
            lemma_close_ofs_char(s.skip(1), depth);
            if close_ofs(s.skip(1), depth).1 {
                assert(s.skip(1)[close_ofs(s.skip(1), depth).0 as int] == s[1 + close_ofs(
                    s.skip(1),
                    depth,
                ).0 as int]);
            }
        }
    }
}

proof fn lemma_group_balanced(toks: Seq<Token>, acc: Seq<Expression>)
    ensures
        sp_group(toks, acc) matches Ok(es) ==> balanced(toks),
    decreases toks.len(), 0int,
{
    if toks.len() == 0 {
    } else if toks[0] == Token::OpenParenthesis {
        let rest = toks.skip(1);
        let r = close_ofs(rest, 0);
        if r.1 {
            let m = r.0 as int;
            lemma_close_ofs_bound(rest, 0);
            lemma_close_ofs_char(rest, 0);
            let inner = rest.subrange(0, m);
            let mid = rest.subrange(m, rest.len() as int);
            let suffix = rest.subrange(m + 1, rest.len() as int);
            match sp_parse(inner) {
                Err(_) => {},
                Ok(_) => {
                    lemma_parse_balanced(inner);
                    lemma_group_balanced(suffix, acc.push(Expression::Tree(sp_parse(inner)->Ok_0)));
                    if sp_group(toks, acc) is Ok {
                        assert(rest =~= inner + mid);
                        lemma_depth_concat(inner, mid, 1);
                        lemma_depth_shift(inner, 0, 1);
                        assert(mid[0] == rest[m]);
                        assert(mid.skip(1) =~= suffix);
                        assert(depth_after(toks, 0) == depth_after(rest, 1));
                        assert(depth_after(mid, 1) == depth_after(suffix, 0));
                    }
                },
            }
        }
    } else if toks[0] == Token::CloseParenthesis {
    } else {
        lemma_group_balanced(toks.skip(1), acc.push(Expression::Tok(toks[0])));
        if sp_group(toks, acc) is Ok {
            assert(depth_after(toks, 0) == depth_after(toks.skip(1), 0));
        }
    }
}

/// A token sequence that parses has balanced parentheses: an unmatched
/// open or close parenthesis never yields a tree.
pub proof fn lemma_parse_balanced(toks: Seq<Token>)
    ensures
        sp_parse(toks) matches Ok(tree) ==> balanced(toks),
    decreases toks.len(), 1int,
{
    lemma_group_balanced(toks, Seq::empty());
}

/// Two tokens the parser treats alike: equal, or the tokenizer's
/// implicit-multiplication marker against plain multiplication.
pub open spec fn tok_like(x: Token, y: Token) -> bool {
    x == y || (x == Token::ImplMul && y == Token::Mul)
}

/// Two token sequences that differ only in implicit against explicit
/// multiplication.
pub open spec fn toks_like(a: Seq<Token>, b: Seq<Token>) -> bool {
    a.len() == b.len() && forall|k: int| 0 <= k < a.len() ==> tok_like(#[trigger] a[k], b[k])
}

spec fn expr_like(x: Expression, y: Expression) -> bool {
    match (x, y) {
        (Expression::Tok(t1), Expression::Tok(t2)) => tok_like(t1, t2),
        (Expression::Tree(a), Expression::Tree(b)) => a == b,
        _ => false,
    }
}

spec fn exprs_like(a: Seq<Expression>, b: Seq<Expression>) -> bool {
    a.len() == b.len() && forall|k: int| 0 <= k < a.len() ==> expr_like(#[trigger] a[k], b[k])
}

spec fn pass_like(
    ra: Result<Seq<Expression>, ParsingError>,
    rb: Result<Seq<Expression>, ParsingError>,
) -> bool {
    match (ra, rb) {
        (Ok(a), Ok(b)) => exprs_like(a, b),
        (Err(x), Err(y)) => x == y,
        _ => false,
    }
}

proof fn lemma_toks_like_subrange(a: Seq<Token>, b: Seq<Token>, lo: int, hi: int)
    requires
        toks_like(a, b),
        0 <= lo <= hi <= a.len(),
    ensures
        toks_like(a.subrange(lo, hi), b.subrange(lo, hi)),
{
    assert forall|k: int| 0 <= k < a.subrange(lo, hi).len() implies tok_like(
        #[trigger] a.subrange(lo, hi)[k],
        b.subrange(lo, hi)[k],
    ) by {
        assert(a.subrange(lo, hi)[k] == a[lo + k]);
        assert(b.subrange(lo, hi)[k] == b[lo + k]);
    }
}

proof fn lemma_exprs_like_push(a: Seq<Expression>, b: Seq<Expression>, x: Expression, y: Expression)
    requires
        exprs_like(a, b),
        expr_like(x, y),
    ensures
        exprs_like(a.push(x), b.push(y)),
{
    assert forall|k: int| 0 <= k < a.push(x).len() implies expr_like(
        #[trigger] a.push(x)[k],
        b.push(y)[k],
    ) by {
        if k < a.len() {
            assert(a.push(x)[k] == a[k]);
            assert(b.push(y)[k] == b[k]);
        } else {
            assert(a.push(x)[k] == x);
            assert(b.push(y)[k] == y);
        }
    }
}

proof fn lemma_exprs_like_skip(a: Seq<Expression>, b: Seq<Expression>, n: int)
    requires
        exprs_like(a, b),
        0 <= n <= a.len(),
    ensures
        exprs_like(a.skip(n), b.skip(n)),
{
    assert forall|k: int| 0 <= k < a.skip(n).len() implies expr_like(
        #[trigger] a.skip(n)[k],
        b.skip(n)[k],
    ) by {
        assert(a.skip(n)[k] == a[k + n]);
        assert(b.skip(n)[k] == b[k + n]);
    }
}

proof fn lemma_exprs_like_drop_last(a: Seq<Expression>, b: Seq<Expression>)
    requires
        exprs_like(a, b),
        a.len() > 0,
    ensures
        exprs_like(a.drop_last(), b.drop_last()),
{
    assert forall|k: int| 0 <= k < a.drop_last().len() implies expr_like(
        #[trigger] a.drop_last()[k],
        b.drop_last()[k],
    ) by {
        assert(a.drop_last()[k] == a[k]);
        assert(b.drop_last()[k] == b[k]);
    }
}

/// Elements the parser treats alike provide the same operand.
proof fn lemma_operand_like(x: Expression, y: Expression)
    requires
        expr_like(x, y),
    ensures
        operand_of(x) == operand_of(y),
{
}

/// The matching close parenthesis stands at the same place in sequences
/// that differ only in implicit against explicit multiplication.
proof fn lemma_close_ofs_like(a: Seq<Token>, b: Seq<Token>, depth: int)
    requires
        toks_like(a, b),
    ensures
        close_ofs(a, depth) == close_ofs(b, depth),
    decreases a.len(),
{
    if a.len() > 0 {
        assert(tok_like(a[0], b[0]));
        lemma_toks_like_subrange(a, b, 1, a.len() as int);
        assert(a.skip(1) == a.subrange(1, a.len() as int));
        assert(b.skip(1) == b.subrange(1, b.len() as int));
        lemma_close_ofs_like(a.skip(1), b.skip(1), depth - 1);
        lemma_close_ofs_like(a.skip(1), b.skip(1), depth + 1);
        lemma_close_ofs_like(a.skip(1), b.skip(1), depth);
    }
}

proof fn lemma_group_like(a: Seq<Token>, b: Seq<Token>, acca: Seq<Expression>, accb: Seq<Expression>)
    requires
        toks_like(a, b),
        exprs_like(acca, accb),
    ensures
        pass_like(sp_group(a, acca), sp_group(b, accb)),
    decreases a.len(), 0int,
{
    if a.len() == 0 {
    } else {
        assert(tok_like(a[0], b[0]));
        lemma_toks_like_subrange(a, b, 1, a.len() as int);
        assert(a.skip(1) == a.subrange(1, a.len() as int));
        assert(b.skip(1) == b.subrange(1, b.len() as int));
        if a[0] == Token::OpenParenthesis {
            let rest_a = a.skip(1);
            let rest_b = b.skip(1);
            lemma_close_ofs_like(rest_a, rest_b, 0);
            let r = close_ofs(rest_a, 0);
            if r.1 {
                let m = r.0 as int;
                lemma_close_ofs_bound(rest_a, 0);
                lemma_toks_like_subrange(rest_a, rest_b, 0, m);
                lemma_parse_like(rest_a.subrange(0, m), rest_b.subrange(0, m));
                match sp_parse(rest_a.subrange(0, m)) {
                    Err(_) => {},
                    Ok(tree) => {
                        lemma_toks_like_subrange(rest_a, rest_b, m + 1, rest_a.len() as int);
                        lemma_exprs_like_push(
                            acca,
                            accb,
                            Expression::Tree(tree),
                            Expression::Tree(tree),
                        );
                        lemma_group_like(
                            rest_a.subrange(m + 1, rest_a.len() as int),
                            rest_b.subrange(m + 1, rest_b.len() as int),
                            acca.push(Expression::Tree(tree)),
                            accb.push(Expression::Tree(tree)),
                        );
                    },
                }
            }
        } else if a[0] == Token::CloseParenthesis {
        } else {
            lemma_exprs_like_push(acca, accb, Expression::Tok(a[0]), Expression::Tok(b[0]));
            lemma_group_like(
                a.skip(1),
                b.skip(1),
                acca.push(Expression::Tok(a[0])),
                accb.push(Expression::Tok(b[0])),
            );
        }
    }
}

proof fn lemma_funcs_like(
    ra: Seq<Expression>,
    rb: Seq<Expression>,
    acca: Seq<Expression>,
    accb: Seq<Expression>,
)
    requires
        exprs_like(ra, rb),
        exprs_like(acca, accb),
    ensures
        pass_like(sp_funcs(ra, acca), sp_funcs(rb, accb)),
    decreases ra.len(),
{
    if ra.len() == 0 {
    } else {
        assert(expr_like(ra[0], rb[0]));
        let matched = match ra[0] {
            Expression::Tok(t) => is_func_token(t),
            Expression::Tree(_) => false,
        };
        if matched {
            let t = ra[0]->Tok_0;
            assert(rb[0]->Tok_0 == t);
            if ra.len() > 1 {
                assert(expr_like(ra[1], rb[1]));
                lemma_operand_like(ra[1], rb[1]);
                match operand_of(ra[1]) {
                    None => {},
                    Some(sub) => {
                        lemma_exprs_like_skip(ra, rb, 2);
                        lemma_exprs_like_push(
                            acca,
                            accb,
                            Expression::Tree(unary(t, sub)),
                            Expression::Tree(unary(t, sub)),
                        );
                        lemma_funcs_like(
                            ra.skip(2),
                            rb.skip(2),
                            acca.push(Expression::Tree(unary(t, sub))),
                            accb.push(Expression::Tree(unary(t, sub))),
                        );
                    },
                }
            }
        } else {
            lemma_exprs_like_skip(ra, rb, 1);
            lemma_exprs_like_push(acca, accb, ra[0], rb[0]);
            lemma_funcs_like(ra.skip(1), rb.skip(1), acca.push(ra[0]), accb.push(rb[0]));
        }
    }
}

proof fn lemma_ops_like(
    ra: Seq<Expression>,
    rb: Seq<Expression>,
    acca: Seq<Expression>,
    accb: Seq<Expression>,
    tier: int,
)
    requires
        exprs_like(ra, rb),
        exprs_like(acca, accb),
    ensures
        pass_like(sp_ops(ra, acca, tier), sp_ops(rb, accb, tier)),
    decreases ra.len(),
{
    if ra.len() == 0 {
    } else {
        assert(expr_like(ra[0], rb[0]));
        let matched = match ra[0] {
            Expression::Tok(t) => crate::parser::tier_has(tier, t),
            Expression::Tree(_) => false,
        };
        if matched {
            let ta = ra[0]->Tok_0;
            let tb = rb[0]->Tok_0;
            assert(crate::parser::norm_op(ta) == crate::parser::norm_op(tb));
            let lastop = if acca.len() == 0 {
                if tier == 3 {
                    Some(zero_leaf())
                } else {
                    None
                }
            } else {
                operand_of(acca.last())
            };
            if acca.len() > 0 {
                assert(expr_like(acca.last(), accb.last()));
                lemma_operand_like(acca.last(), accb.last());
            }
            match lastop {
                None => {},
                Some(l) => {
                    if ra.len() > 1 {
                        assert(expr_like(ra[1], rb[1]));
                        lemma_operand_like(ra[1], rb[1]);
                        match operand_of(ra[1]) {
                            None => {},
                            Some(r) => {
                                let node = binary(crate::parser::norm_op(ta), l, r);
                                let popped_a = if acca.len() == 0 {
                                    acca
                                } else {
                                    acca.drop_last()
                                };
                                let popped_b = if accb.len() == 0 {
                                    accb
                                } else {
                                    accb.drop_last()
                                };
                                if acca.len() > 0 {
                                    lemma_exprs_like_drop_last(acca, accb);
                                }
                                lemma_exprs_like_skip(ra, rb, 2);
                                lemma_exprs_like_push(
                                    popped_a,
                                    popped_b,
                                    Expression::Tree(node),
                                    Expression::Tree(node),
                                );
                                lemma_ops_like(
                                    ra.skip(2),
                                    rb.skip(2),
                                    popped_a.push(Expression::Tree(node)),
                                    popped_b.push(Expression::Tree(node)),
                                    tier,
                                );
                            },
                        }
                    }
                },
            }
        } else {
            lemma_exprs_like_skip(ra, rb, 1);
            lemma_exprs_like_push(acca, accb, ra[0], rb[0]);
            lemma_ops_like(ra.skip(1), rb.skip(1), acca.push(ra[0]), accb.push(rb[0]), tier);
        }
    }
}

proof fn lemma_finish_like(a: Seq<Expression>, b: Seq<Expression>)
    requires
        exprs_like(a, b),
    ensures
        sp_finish(a) == sp_finish(b),
{
    if a.len() == 1 {
        assert(expr_like(a[0], b[0]));
    }
}

proof fn lemma_parse_like(a: Seq<Token>, b: Seq<Token>)
    requires
        toks_like(a, b),
    ensures
        sp_parse(a) == sp_parse(b),
    decreases a.len(), 1int,
{
    lemma_group_like(a, b, Seq::empty(), Seq::empty());
    match (sp_group(a, Seq::empty()), sp_group(b, Seq::empty())) {
        (Ok(ea), Ok(eb)) => {
            lemma_funcs_like(ea, eb, Seq::empty(), Seq::empty());
            match (sp_funcs(ea, Seq::empty()), sp_funcs(eb, Seq::empty())) {
                (Ok(fa), Ok(fb)) => {
                    lemma_ops_like(fa, fb, Seq::empty(), Seq::empty(), 1);
                    match (sp_ops(fa, Seq::empty(), 1), sp_ops(fb, Seq::empty(), 1)) {
                        (Ok(pa), Ok(pb)) => {
                            lemma_ops_like(pa, pb, Seq::empty(), Seq::empty(), 2);
                            match (sp_ops(pa, Seq::empty(), 2), sp_ops(pb, Seq::empty(), 2)) {
                                (Ok(ma), Ok(mb)) => {
                                    lemma_ops_like(ma, mb, Seq::empty(), Seq::empty(), 3);
                                    match (
                                        sp_ops(ma, Seq::empty(), 3),
                                        sp_ops(mb, Seq::empty(), 3),
                                    ) {
                                        (Ok(sa), Ok(sb)) => {
                                            lemma_finish_like(sa, sb);
                                        },
                                        _ => {},
                                    }
                                },
                                _ => {},
                            }
                        },
                        _ => {},
                    }
                },
                _ => {},
            }
        },
        _ => {},
    }
}

/// Implicit multiplication behaves exactly as multiplication: replacing
/// the tokenizer's implicit-multiplication marker by the multiplication
/// token, anywhere in a token sequence, leaves the parse — and with it the
/// evaluation — unchanged.
pub proof fn lemma_implicit_multiplication(a: Seq<Token>, b: Seq<Token>, ans: Option<Dec>)
    requires
        toks_like(a, b),
    ensures
        sp_parse(a) == sp_parse(b),
        sp_parse(a) matches Ok(ta) ==> (sp_parse(b) matches Ok(tb) ==> sp_compute_tree(ta, ans)
            == sp_compute_tree(tb, ans)),
{
    lemma_parse_like(a, b);
}

/// An element of the reduction buffer is well formed: a token within the
/// decimal's ranges, or a well-formed sub-tree.
pub open spec fn wf_expr(e: Expression) -> bool {
    match e {
        Expression::Tok(t) => token_valid(t),
        Expression::Tree(tr) => wf(tr),
    }
}

/// Every element of the buffer is well formed.
pub open spec fn all_wf(es: Seq<Expression>) -> bool {
    forall|k: int| 0 <= k < es.len() ==> wf_expr(#[trigger] es[k])
}

proof fn lemma_all_wf_push(es: Seq<Expression>, e: Expression)
    requires
        all_wf(es),
        wf_expr(e),
    ensures
        all_wf(es.push(e)),
{
    assert forall|k: int| 0 <= k < es.push(e).len() implies wf_expr(#[trigger] es.push(e)[k]) by {
        if k < es.len() {
            assert(es.push(e)[k] == es[k]);
        } else {
            assert(es.push(e)[k] == e);
        }
    }
}

proof fn lemma_all_wf_skip(es: Seq<Expression>, n: int)
    requires
        all_wf(es),
        0 <= n <= es.len(),
    ensures
        all_wf(es.skip(n)),
{
    assert forall|k: int| 0 <= k < es.skip(n).len() implies wf_expr(#[trigger] es.skip(n)[k]) by {
        assert(es.skip(n)[k] == es[k + n]);
    }
}

proof fn lemma_all_wf_drop_last(es: Seq<Expression>)
    requires
        all_wf(es),
        es.len() > 0,
    ensures
        all_wf(es.drop_last()),
{
    assert forall|k: int| 0 <= k < es.drop_last().len() implies wf_expr(
        #[trigger] es.drop_last()[k],
    ) by {
        assert(es.drop_last()[k] == es[k]);
    }
}

proof fn lemma_tokens_valid_subrange(ts: Seq<Token>, a: int, b: int)
    requires
        tokens_valid(ts),
        0 <= a <= b <= ts.len(),
    ensures
        tokens_valid(ts.subrange(a, b)),
{
    assert forall|k: int| 0 <= k < ts.subrange(a, b).len() implies token_valid(
        #[trigger] ts.subrange(a, b)[k],
    ) by {
        assert(ts.subrange(a, b)[k] == ts[a + k]);
    }
}

/// The operand an element provides is well formed when the element is.
proof fn lemma_operand_wf(e: Expression)
    requires
        wf_expr(e),
    ensures
        operand_of(e) matches Some(tr) ==> wf(tr),
{
}

/// The grouping pass keeps every buffer element well formed.
proof fn lemma_group_wf(toks: Seq<Token>, acc: Seq<Expression>)
    requires
        tokens_valid(toks),
        all_wf(acc),
    ensures
        sp_group(toks, acc) matches Ok(es) ==> all_wf(es),
    decreases toks.len(), 0int,
{
    if toks.len() == 0 {
    } else if toks[0] == Token::OpenParenthesis {
        let rest = toks.skip(1);
        let r = close_ofs(rest, 0);
        if r.1 {
            let m = r.0 as int;
            lemma_close_ofs_bound(rest, 0);
            lemma_tokens_valid_subrange(toks, 1, toks.len() as int);
            lemma_tokens_valid_subrange(rest, 0, m);
            lemma_parse_wf(rest.subrange(0, m));
            match sp_parse(rest.subrange(0, m)) {
                Err(_) => {},
                Ok(tree) => {
                    lemma_all_wf_push(acc, Expression::Tree(tree));
                    lemma_tokens_valid_subrange(rest, m + 1, rest.len() as int);
                    lemma_group_wf(
                        rest.subrange(m + 1, rest.len() as int),
                        acc.push(Expression::Tree(tree)),
                    );
                },
            }
        }
    } else if toks[0] == Token::CloseParenthesis {
    } else {
        assert(token_valid(toks[0]));
        lemma_all_wf_push(acc, Expression::Tok(toks[0]));
        lemma_tokens_valid_subrange(toks, 1, toks.len() as int);
        lemma_group_wf(toks.skip(1), acc.push(Expression::Tok(toks[0])));
    }
}

/// The prefix-function pass keeps every buffer element well formed.
proof fn lemma_funcs_wf(rest: Seq<Expression>, acc: Seq<Expression>)
    requires
        all_wf(rest),
        all_wf(acc),
    ensures
        sp_funcs(rest, acc) matches Ok(es) ==> all_wf(es),
    decreases rest.len(),
{
    if rest.len() == 0 {
    } else {
        let matched = match rest[0] {
            Expression::Tok(t) => is_func_token(t),
            Expression::Tree(_) => false,
        };
        if matched {
            let t = rest[0]->Tok_0;
            if rest.len() > 1 {
                match operand_of(rest[1]) {
                    None => {},
                    Some(sub) => {
                        assert(wf_expr(rest[1]));
                        lemma_operand_wf(rest[1]);
                        assert(wf(unary(t, sub)));
                        lemma_all_wf_skip(rest, 2);
                        lemma_all_wf_push(acc, Expression::Tree(unary(t, sub)));
                        lemma_funcs_wf(rest.skip(2), acc.push(Expression::Tree(unary(t, sub))));
                    },
                }
            }
        } else {
            assert(wf_expr(rest[0]));
            lemma_all_wf_skip(rest, 1);
            lemma_all_wf_push(acc, rest[0]);
            lemma_funcs_wf(rest.skip(1), acc.push(rest[0]));
        }
    }
}

/// A binary-operator pass keeps every buffer element well formed.
proof fn lemma_ops_wf(rest: Seq<Expression>, acc: Seq<Expression>, tier: int)
    requires
        all_wf(rest),
        all_wf(acc),
    ensures
        sp_ops(rest, acc, tier) matches Ok(es) ==> all_wf(es),
    decreases rest.len(),
{
    if rest.len() == 0 {
    } else {
        let matched = match rest[0] {
            Expression::Tok(t) => crate::parser::tier_has(tier, t),
            Expression::Tree(_) => false,
        };
        if matched {
            let t = rest[0]->Tok_0;
            let lastop = if acc.len() == 0 {
                if tier == 3 {
                    Some(zero_leaf())
                } else {
                    None
                }
            } else {
                operand_of(acc.last())
            };
            match lastop {
                None => {},
                Some(l) => {
                    if rest.len() > 1 {
                        match operand_of(rest[1]) {
                            None => {},
                            Some(r) => {
                                if acc.len() > 0 {
                                    assert(wf_expr(acc.last()));
                                    lemma_operand_wf(acc.last());
                                }
                                assert(wf(l));
                                assert(wf_expr(rest[1]));
                                lemma_operand_wf(rest[1]);
                                let node = binary(crate::parser::norm_op(t), l, r);
                                assert(wf(node));
                                let popped = if acc.len() == 0 {
                                    acc
                                } else {
                                    acc.drop_last()
                                };
                                if acc.len() > 0 {
                                    lemma_all_wf_drop_last(acc);
                                }
                                lemma_all_wf_skip(rest, 2);
                                lemma_all_wf_push(popped, Expression::Tree(node));
                                lemma_ops_wf(
                                    rest.skip(2),
                                    popped.push(Expression::Tree(node)),
                                    tier,
                                );
                            },
                        }
                    }
                },
            }
        } else {
            assert(wf_expr(rest[0]));
            lemma_all_wf_skip(rest, 1);
            lemma_all_wf_push(acc, rest[0]);
            lemma_ops_wf(rest.skip(1), acc.push(rest[0]), tier);
        }
    }
}

/// Whatever tree a parse returns is well formed: the parser never
/// constructs an ill-formed node.
pub proof fn lemma_parse_wf(toks: Seq<Token>)
    requires
        tokens_valid(toks),
    ensures
        sp_parse(toks) matches Ok(tree) ==> wf(tree),
    decreases toks.len(), 1int,
{
    lemma_group_wf(toks, Seq::empty());
    match sp_group(toks, Seq::empty()) {
        Err(_) => {},
        Ok(exprs) => {
            lemma_funcs_wf(exprs, Seq::empty());
            match sp_funcs(exprs, Seq::empty()) {
                Err(_) => {},
                Ok(e1) => {
                    lemma_ops_wf(e1, Seq::empty(), 1);
                    match sp_ops(e1, Seq::empty(), 1) {
                        Err(_) => {},
                        Ok(e2) => {
                            lemma_ops_wf(e2, Seq::empty(), 2);
                            match sp_ops(e2, Seq::empty(), 2) {
                                Err(_) => {},
                                Ok(e3) => {
                                    lemma_ops_wf(e3, Seq::empty(), 3);
                                    match sp_ops(e3, Seq::empty(), 3) {
                                        Err(_) => {},
                                        Ok(e4) => {
                                            assert(sp_finish(e4) matches Ok(tree) ==> wf(tree));
                                        },
                                    }
                                },
                            }
                        },
                    }
                },
            }
        },
    }
}

/// On a well-formed tree the evaluator never reports its internal backstop
/// error: every failure is a structured arithmetic error.
pub proof fn lemma_wf_no_unknown(tree: Option<Box<ParseTree>>, ans: Option<Dec>)
    requires
        tree matches Some(t) ==> wf(*t),
        ans matches Some(a) ==> a.valid(),
    ensures
        sp_compute(tree, ans) != Err::<Dec, ComputeError>(ComputeError::Unknown),
    decreases tree,
{
    match tree {
        None => {},
        Some(t) => {
            lemma_wf_no_unknown(t.left, ans);
            lemma_wf_no_unknown(t.right, ans);
        },
    }
}

/// The backstop error is reserved for states no scanned and parsed input
/// reaches: whenever the tokenizer and the parser both succeed, evaluating
/// the resulting tree never reports it, whatever the previous answer.
pub proof fn lemma_pipeline_never_unknown(s: Seq<char>, ts: Seq<Token>, ans: Option<Dec>)
    requires
        spec_tokenize(s) == Some(ts),
        ans matches Some(a) ==> a.valid(),
    ensures
        sp_parse(ts) matches Ok(tree) ==> sp_compute_tree(tree, ans) != Err::<Dec, ComputeError>(
            ComputeError::Unknown,
        ),
{
    crate::tokenizer::lemma_spec_tokenize_valid(s);
    lemma_parse_wf(ts);
    match sp_parse(ts) {
        Err(_) => {},
        Ok(tree) => {
            lemma_wf_no_unknown(Some(Box::new(tree)), ans);
        },
    }
}

} // verus!
