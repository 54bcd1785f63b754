//! Evaluation of an expression tree into a checked decimal value.
//!
//! A post-order walk: children first (left before right, except that a
//! divisor is checked for zero before its dividend is computed), then the
//! node's own checked operation.  Every arithmetic failure is a structured
//! error; an ill-shaped tree falls to the internal backstop instead of
//! crashing.  The factorial of a non-negative integer value is computed
//! exactly; a negative or fractional operand is not real, and a result
//! beyond the decimal's width is an overflow.

use vstd::arithmetic::div_mod::lemma_div_nonincreasing;
use vstd::arithmetic::div_mod::lemma_fundamental_div_mod;
use vstd::arithmetic::div_mod::lemma_mod_bound;
use vstd::arithmetic::mul::lemma_mul_inequality;
use vstd::arithmetic::mul::lemma_mul_is_distributive_add;
use vstd::prelude::*;

use crate::decimal::add_of;
use crate::decimal::cos_of;
use crate::decimal::dec_add;
use crate::decimal::dec_cos;
use crate::decimal::dec_div;
use crate::decimal::dec_e;
use crate::decimal::dec_exp;
use crate::decimal::dec_ln;
use crate::decimal::dec_log10;
use crate::decimal::dec_mul;
use crate::decimal::dec_pi;
use crate::decimal::dec_powd;
use crate::decimal::dec_sin;
use crate::decimal::dec_sqrt;
use crate::decimal::dec_sub;
use crate::decimal::dec_tan;
use crate::decimal::div_of;
use crate::decimal::e_dec;
use crate::decimal::exp_of;
use crate::decimal::ln_of;
use crate::decimal::log10_of;
use crate::decimal::mul_of;
use crate::decimal::pi_dec;
use crate::decimal::powd_of;
use crate::decimal::sin_of;
use crate::decimal::sqrt_of;
use crate::decimal::sub_of;
use crate::decimal::tan_of;
use crate::decimal::Dec;
use crate::decimal::MAX_MANTISSA;
use crate::parser::ParseTree;
use crate::tokenizer::Token;

verus! {

/// How evaluation can fail: a value beyond the decimal's range, a zero
/// divisor, a zero logarithm base, a result outside the reals, a reference
/// to the previous answer when none exists, and the internal backstop for
/// tree shapes no parse produces.
#[derive(Debug, Clone, Copy, PartialEq, Eq, Structural)]
pub enum ComputeError {
    Overflow,
    DivByZero,
    LogBaseZero,
    NotReal,
    NoAns,
    Unknown,
}

/// The mathematical factorial.
pub open spec fn fact(n: nat) -> nat
    decreases n,
{
    if n == 0 {
        1
    } else {
        n * fact((n - 1) as nat)
    }
}

/// Ten to the `k`th power.
pub open spec fn pow10(k: nat) -> int
    decreases k,
{
    if k == 0 {
        1
    } else {
        10 * pow10((k - 1) as nat)
    }
}

/// The factorial of a decimal operand: defined for non-negative integer
/// values only (a fractional or negative operand is not real), exact, and
/// an overflow when the result exceeds the decimal's width.
pub open spec fn sp_fact_eval(v: Dec) -> Result<Dec, ComputeError> {
    if v.mantissa < 0 {
        Err(ComputeError::NotReal)
    } else {
        let p = pow10(v.scale as nat);
        if v.mantissa as int % p != 0 {
            Err(ComputeError::NotReal)
        } else {
            let n = (v.mantissa as int / p) as nat;
            if fact(n) <= MAX_MANTISSA {
                Ok(Dec { mantissa: fact(n) as i128, scale: 0 })
            } else {
                Err(ComputeError::Overflow)
            }
        }
    }
}

/// The value of an optional subtree: an absent child counts as zero, a
/// leaf is its literal, constant or the previous answer, an operator node
/// applies its checked operation to its children's values.
pub open spec fn sp_compute(tree: Option<Box<ParseTree>>, ans: Option<Dec>) -> Result<
    Dec,
    ComputeError,
>
    decreases tree,
{
    match tree {
        None => Ok(Dec { mantissa: 0, scale: 0 }),
        Some(t) => match t.token {
            Token::Add => match sp_compute(t.left, ans) {
                Err(e) => Err(e),
                Ok(l) => match sp_compute(t.right, ans) {
                    Err(e) => Err(e),
                    Ok(r) => match add_of(l, r) {
                        None => Err(ComputeError::Overflow),
                        Some(c) => Ok(c),
                    },
                },
            },
            Token::Sub => match sp_compute(t.left, ans) {
                Err(e) => Err(e),
                Ok(l) => match sp_compute(t.right, ans) {
                    Err(e) => Err(e),
                    Ok(r) => match sub_of(l, r) {
                        None => Err(ComputeError::Overflow),
                        Some(c) => Ok(c),
                    },
                },
            },
            Token::Mul => match sp_compute(t.left, ans) {
                Err(e) => Err(e),
                Ok(l) => match sp_compute(t.right, ans) {
                    Err(e) => Err(e),
                    Ok(r) => match mul_of(l, r) {
                        None => Err(ComputeError::Overflow),
                        Some(c) => Ok(c),
                    },
                },
            },
            Token::Div => match sp_compute(t.right, ans) {
                Err(e) => Err(e),
                Ok(r) => if r.is_zero() {
                    Err(ComputeError::DivByZero)
                } else {
                    match sp_compute(t.left, ans) {
                        Err(e) => Err(e),
                        Ok(l) => match div_of(l, r) {
                            None => Err(ComputeError::Overflow),
                            Some(c) => Ok(c),
                        },
                    }
                },
            },
            Token::Pow => match sp_compute(t.left, ans) {
                Err(e) => Err(e),
                Ok(l) => match sp_compute(t.right, ans) {
                    Err(e) => Err(e),
                    Ok(r) => match powd_of(l, r) {
                        None => Err(ComputeError::Overflow),
                        Some(c) => Ok(c),
                    },
                },
            },
            Token::Sin => match sp_compute(t.left, ans) {
                Err(e) => Err(e),
                Ok(l) => match sin_of(l) {
                    None => Err(ComputeError::Overflow),
                    Some(c) => Ok(c),
                },
            },
            Token::Cos => match sp_compute(t.left, ans) {
                Err(e) => Err(e),
                Ok(l) => match cos_of(l) {
                    None => Err(ComputeError::Overflow),
                    Some(c) => Ok(c),
                },
            },
            Token::Tan => match sp_compute(t.left, ans) {
                Err(e) => Err(e),
                Ok(l) => match tan_of(l) {
                    None => Err(ComputeError::Overflow),
                    Some(c) => Ok(c),
                },
            },
            Token::Ln => match sp_compute(t.left, ans) {
                Err(e) => Err(e),
                Ok(l) => match ln_of(l) {
                    None => Err(ComputeError::Overflow),
                    Some(c) => Ok(c),
                },
            },
            Token::Exp => match sp_compute(t.left, ans) {
                Err(e) => Err(e),
                Ok(l) => match exp_of(l) {
                    None => Err(ComputeError::Overflow),
                    Some(c) => Ok(c),
                },
            },
            Token::Log => if t.right is None {
                match sp_compute(t.left, ans) {
                    Err(e) => Err(e),
                    Ok(l) => if l.is_zero() {
                        Err(ComputeError::Overflow)
                    } else {
                        match log10_of(l) {
                            None => Err(ComputeError::NotReal),
                            Some(c) => Ok(c),
                        }
                    },
                }
            } else {
                match sp_compute(t.left, ans) {
                    Err(e) => Err(e),
                    Ok(base) => if base.is_zero() {
                        Err(ComputeError::LogBaseZero)
                    } else {
                        match sp_compute(t.right, ans) {
                            Err(e) => Err(e),
                            Ok(val) => if val.is_zero() {
                                Err(ComputeError::Overflow)
                            } else {
                                match log10_of(val) {
                                    None => Err(ComputeError::NotReal),
                                    Some(lv) => match log10_of(base) {
                                        None => Err(ComputeError::NotReal),
                                        Some(lb) => if lb.is_zero() {
                                            Err(ComputeError::Overflow)
                                        } else {
                                            match div_of(lv, lb) {
                                                None => Err(ComputeError::Overflow),
                                                Some(c) => Ok(c),
                                            }
                                        },
                                    },
                                }
                            },
                        }
                    },
                }
            },
            Token::Sqrt => match sp_compute(t.left, ans) {
                Err(e) => Err(e),
                Ok(l) => match sqrt_of(l) {
                    None => Err(ComputeError::NotReal),
                    Some(c) => Ok(c),
                },
            },
            Token::Factorial => match sp_compute(t.left, ans) {
                Err(e) => Err(e),
                Ok(l) => sp_fact_eval(l),
            },
            Token::Literal(d) => if d.valid() {
                Ok(d)
            } else {
                Err(ComputeError::Unknown)
            },
            Token::PI => Ok(pi_dec()),
            Token::E => Ok(e_dec()),
            Token::Ans => match ans {
                None => Err(ComputeError::NoAns),
                Some(a) => if a.valid() {
                    Ok(a)
                } else {
                    Err(ComputeError::Unknown)
                },
            },
            _ => Err(ComputeError::Unknown),
        },
    }
}

/// The value of a whole tree.
pub open spec fn sp_compute_tree(tree: ParseTree, ans: Option<Dec>) -> Result<Dec, ComputeError> {
    sp_compute(Some(Box::new(tree)), ans)
}

proof fn lemma_pow10_pos(k: nat)
    ensures
        pow10(k) >= 1,
    decreases k,
{
    if k > 0 {
        lemma_pow10_pos((k - 1) as nat)
    }
}

proof fn lemma_pow10_mono(a: nat, b: nat)
    requires
        a <= b,
    ensures
        pow10(a) <= pow10(b),
    decreases b,
{
    if a < b {
        lemma_pow10_mono(a, (b - 1) as nat);
        lemma_pow10_pos((b - 1) as nat);
    }
}

proof fn lemma_pow10_28()
    ensures
        pow10(28) == 10000000000000000000000000000,
{
    reveal_with_fuel(pow10, 29);
}

proof fn lemma_fact_mono(a: nat, b: nat)
    requires
        a <= b,
    ensures
        fact(a) <= fact(b),
    decreases b,
{
    if a < b {
        lemma_fact_mono(a, (b - 1) as nat);
        lemma_fact_pos((b - 1) as nat);
        lemma_mul_inequality(1, b as int, fact((b - 1) as nat) as int);
    }
}

proof fn lemma_fact_pos(n: nat)
    ensures
        fact(n) >= 1,
    decreases n,
{
    if n > 0 {
        lemma_fact_pos((n - 1) as nat);
        lemma_mul_inequality(1, n as int, fact((n - 1) as nat) as int);
    }
}

/// Compute ten to the power of a scale.
fn pow10_x(k: u32) -> (p: u128)
    requires
        k <= 28,
    ensures
        p == pow10(k as nat),
{
    let mut p: u128 = 1;
    let mut j: u32 = 0;
    while j < k
        invariant
            j <= k <= 28,
            p == pow10(j as nat),
        decreases k - j,
    {
        proof {
            lemma_pow10_mono(j as nat + 1, 28);
            lemma_pow10_28();
        }
        p = p * 10;
        j = j + 1;
    }
    p
}

/// The factorial of a decimal operand.
fn fact_eval(v: Dec) -> (r: Result<Dec, ComputeError>)
    requires
        v.valid(),
    ensures
        r == sp_fact_eval(v),
        r matches Ok(d) ==> d.valid(),
{
    if v.mantissa < 0 {
        return Err(ComputeError::NotReal);
    }
    let mu = v.mantissa as u128;
    let pu = pow10_x(v.scale);
    proof {
        lemma_pow10_pos(v.scale as nat);
    }
    if mu % pu != 0 {
        return Err(ComputeError::NotReal);
    }
    let n = mu / pu;
    let ghost nn = (v.mantissa as int / pow10(v.scale as nat)) as nat;
    proof {
        assert(n == nn);
        lemma_div_nonincreasing(mu as int, pu as int);
    }
    let mut acc: u128 = 1;
    let mut i: u128 = 1;
    while i <= n
        invariant
            1 <= i <= n + 1,
            n <= MAX_MANTISSA as u128,
            acc == fact((i - 1) as nat),
            acc <= MAX_MANTISSA as u128,
            nn == n,
            sp_fact_eval(v) == (if fact(nn) <= MAX_MANTISSA {
                Ok::<Dec, ComputeError>(Dec { mantissa: fact(nn) as i128, scale: 0 })
            } else {
                Err::<Dec, ComputeError>(ComputeError::Overflow)
            }),
        decreases n + 1 - i,
    {
        let limit = (MAX_MANTISSA as u128) / i;
        proof {
            let mi = MAX_MANTISSA as int;
            let ii = i as int;
            let q = limit as int;
            lemma_fundamental_div_mod(mi, ii);
            lemma_mod_bound(mi, ii);
            lemma_mul_is_distributive_add(ii, q, 1);
            assert(fact(i as nat) == i * fact((i - 1) as nat));
        }
        if acc > limit {
            proof {
                // fact(i) = i * fact(i - 1) > MAX_MANTISSA, and the
                // factorial only grows from there
                lemma_mul_inequality(limit as int + 1, acc as int, i as int);
                assert(acc as int * i as int > MAX_MANTISSA);
                lemma_fact_mono(i as nat, nn);
            }
            return Err(ComputeError::Overflow);
        }
        proof {
            lemma_mul_inequality(acc as int, limit as int, i as int);
            assert(acc as int * i as int <= MAX_MANTISSA);
        }
        acc = acc * i;
        i = i + 1;
    }
    proof {
        assert(fact(nn) == acc);
    }
    Ok(Dec { mantissa: acc as i128, scale: 0 })
}

fn dec_is_valid(d: &Dec) -> (r: bool)
    ensures
        r == d.valid(),
{
    -MAX_MANTISSA <= d.mantissa && d.mantissa <= MAX_MANTISSA && d.scale <= 28
}

/// Evaluate an optional subtree: an absent child is zero, a binary
/// operator node evaluates its children and applies its checked operation,
/// and every other node is handed on.
fn compute(tree: Option<Box<ParseTree>>, ans: Option<Dec>) -> (r: Result<Dec, ComputeError>)
    ensures
        r == sp_compute(tree, ans),
        r matches Ok(d) ==> d.valid(),
    decreases tree, 0int,
{
    let bt = match tree {
        None => {
            return Ok(Dec { mantissa: 0, scale: 0 });
        },
        Some(bt) => bt,
    };
    let t = *bt;
    match t.token {
        Token::Add => {
            let l = match compute(t.left, ans) {
                Err(e) => {
                    return Err(e);
                },
                Ok(l) => l,
            };
            let r = match compute(t.right, ans) {
                Err(e) => {
                    return Err(e);
                },
                Ok(r) => r,
            };
            match dec_add(l, r) {
                None => Err(ComputeError::Overflow),
                Some(c) => Ok(c),
            }
        },
        Token::Sub => {
            let l = match compute(t.left, ans) {
                Err(e) => {
                    return Err(e);
                },
                Ok(l) => l,
            };
            let r = match compute(t.right, ans) {
                Err(e) => {
                    return Err(e);
                },
                Ok(r) => r,
            };
            match dec_sub(l, r) {
                None => Err(ComputeError::Overflow),
                Some(c) => Ok(c),
            }
        },
        Token::Mul => {
            let l = match compute(t.left, ans) {
                Err(e) => {
                    return Err(e);
                },
                Ok(l) => l,
            };
            let r = match compute(t.right, ans) {
                Err(e) => {
                    return Err(e);
                },
                Ok(r) => r,
            };
            match dec_mul(l, r) {
                None => Err(ComputeError::Overflow),
                Some(c) => Ok(c),
            }
        },
        Token::Div => {
            let r = match compute(t.right, ans) {
                Err(e) => {
                    return Err(e);
                },
                Ok(r) => r,
            };
            if r.mantissa == 0 {
                return Err(ComputeError::DivByZero);
            }
            let l = match compute(t.left, ans) {
                Err(e) => {
                    return Err(e);
                },
                Ok(l) => l,
            };
            match dec_div(l, r) {
                None => Err(ComputeError::Overflow),
                Some(c) => Ok(c),
            }
        },
        Token::Pow => {
            let l = match compute(t.left, ans) {
                Err(e) => {
                    return Err(e);
                },
                Ok(l) => l,
            };
            let r = match compute(t.right, ans) {
                Err(e) => {
                    return Err(e);
                },
                Ok(r) => r,
            };
            match dec_powd(l, r) {
                None => Err(ComputeError::Overflow),
                Some(c) => Ok(c),
            }
        },
        _ => compute_rest(t, ans),
    }
}

/// Evaluate a node that is not a binary arithmetic operator: a prefix
/// function, a logarithm, a leaf, or — the internal backstop — a token no
/// parse puts in a tree.
fn compute_rest(t: ParseTree, ans: Option<Dec>) -> (r: Result<Dec, ComputeError>)
    requires
        match t.token {
            Token::Add | Token::Sub | Token::Mul | Token::Div | Token::Pow => false,
            _ => true,
        },
    ensures
        r == sp_compute(Some(Box::new(t)), ans),
        r matches Ok(d) ==> d.valid(),
    decreases t, 1int,
{
    match t.token {
        Token::Sin => {
            let l = match compute(t.left, ans) {
                Err(e) => {
                    return Err(e);
                },
                Ok(l) => l,
            };
            match dec_sin(l) {
                None => Err(ComputeError::Overflow),
                Some(c) => Ok(c),
            }
        },
        Token::Cos => {
            let l = match compute(t.left, ans) {
                Err(e) => {
                    return Err(e);
                },
                Ok(l) => l,
            };
            match dec_cos(l) {
                None => Err(ComputeError::Overflow),
                Some(c) => Ok(c),
            }
        },
        Token::Tan => {
            let l = match compute(t.left, ans) {
                Err(e) => {
                    return Err(e);
                },
                Ok(l) => l,
            };
            match dec_tan(l) {
                None => Err(ComputeError::Overflow),
                Some(c) => Ok(c),
            }
        },
        Token::Ln => {
            let l = match compute(t.left, ans) {
                Err(e) => {
                    return Err(e);
                },
                Ok(l) => l,
            };
            match dec_ln(l) {
                None => Err(ComputeError::Overflow),
                Some(c) => Ok(c),
            }
        },
        Token::Exp => {
            let l = match compute(t.left, ans) {
                Err(e) => {
                    return Err(e);
                },
                Ok(l) => l,
            };
            match dec_exp(l) {
                None => Err(ComputeError::Overflow),
                Some(c) => Ok(c),
            }
        },
        Token::Sqrt => {
            let l = match compute(t.left, ans) {
                Err(e) => {
                    return Err(e);
                },
                Ok(l) => l,
            };
            match dec_sqrt(l) {
                None => Err(ComputeError::NotReal),
                Some(c) => Ok(c),
            }
        },
        Token::Factorial => {
            let l = match compute(t.left, ans) {
                Err(e) => {
                    return Err(e);
                },
                Ok(l) => l,
            };
            fact_eval(l)
        },
        Token::Log => compute_log(t, ans),
        Token::Literal(d) => {
            if dec_is_valid(&d) {
                Ok(d)
            } else {
                Err(ComputeError::Unknown)
            }
        },
        Token::PI => Ok(dec_pi()),
        Token::E => Ok(dec_e()),
        Token::Ans => {
            match ans {
                None => Err(ComputeError::NoAns),
                Some(a) => {
                    if dec_is_valid(&a) {
                        Ok(a)
                    } else {
                        Err(ComputeError::Unknown)
                    }
                },
            }
        },
        _ => Err(ComputeError::Unknown),
    }
}

/// Evaluate a logarithm node: the one-operand form is the base-ten
/// logarithm; the two-operand form divides the value's base-ten logarithm
/// by the base's, its base on the left and its value on the right.
fn compute_log(t: ParseTree, ans: Option<Dec>) -> (r: Result<Dec, ComputeError>)
    requires
        t.token == Token::Log,
    ensures
        r == sp_compute(Some(Box::new(t)), ans),
        r matches Ok(d) ==> d.valid(),
    decreases t, 0int,
{
    if t.right.is_none() {
        let l = match compute(t.left, ans) {
            Err(e) => {
                return Err(e);
            },
            Ok(l) => l,
        };
        if l.mantissa == 0 {
            return Err(ComputeError::Overflow);
        }
        match dec_log10(l) {
            None => Err(ComputeError::NotReal),
            Some(c) => Ok(c),
        }
    } else {
        let base = match compute(t.left, ans) {
            Err(e) => {
                return Err(e);
            },
            Ok(l) => l,
        };
        if base.mantissa == 0 {
            return Err(ComputeError::LogBaseZero);
        }
        let val = match compute(t.right, ans) {
            Err(e) => {
                return Err(e);
            },
            Ok(r) => r,
        };
        if val.mantissa == 0 {
            return Err(ComputeError::Overflow);
        }
        let lv = match dec_log10(val) {
            None => {
                return Err(ComputeError::NotReal);
            },
            Some(c) => c,
        };
        let lb = match dec_log10(base) {
            None => {
                return Err(ComputeError::NotReal);
            },
            Some(c) => c,
        };
        if lb.mantissa == 0 {
            return Err(ComputeError::Overflow);
        }
        match dec_div(lv, lb) {
            None => Err(ComputeError::Overflow),
            Some(c) => Ok(c),
        }
    }
}

/// Evaluate a whole expression tree, with the previous answer, if any, as
/// the value of the answer token.
pub fn compute_tree(tree: ParseTree, ans: Option<Dec>) -> (r: Result<Dec, ComputeError>)
    ensures
        r == sp_compute_tree(tree, ans),
        r matches Ok(d) ==> d.valid(),
{
    compute(Some(Box::new(tree)), ans)
}

} // verus!
