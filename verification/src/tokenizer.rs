//! Lexical analysis: a single left-to-right scan of the source text into a
//! sequence of typed tokens.
//!
//! Runs of alphabetic characters resolve case-insensitively against a fixed
//! keyword table; runs of digits with at most one decimal point become
//! literals; single characters map to operator and structural tokens.  An
//! implicit-multiplication token is inserted where a keyword, an open
//! parenthesis or a root sign directly follows a value.  A factorial sign is
//! re-associated: it is inserted in front of the value, or of the whole
//! balanced parenthesized group, that precedes it, so the parser can treat
//! it as a prefix operator.

use vstd::prelude::*;
use vstd::string::*;

use crate::decimal::Dec;
use crate::decimal::MAX_MANTISSA;
use crate::decimal::MAX_SCALE;

verus! {

/// One lexical unit of the expression language.
#[derive(Debug, Clone, Copy, PartialEq, Eq, Structural)]
pub enum Token {
    Add,
    Sub,
    ImplMul,
    Mul,
    Div,
    Pow,
    Sin,
    Cos,
    Tan,
    Exp,
    Ln,
    Log,
    Sqrt,
    Factorial,
    OpenParenthesis,
    CloseParenthesis,
    Comma,
    Literal(Dec),
    Ans,
    PI,
    E,
}

impl Token {
    /// A value-classified token: one that denotes a usable operand.
    pub open spec fn spec_is_value(self) -> bool {
        match self {
            Token::Literal(_) | Token::PI | Token::E | Token::Ans => true,
            _ => false,
        }
    }

    /// Whether this token denotes a usable operand (a literal, a constant,
    /// or the previous answer), as opposed to an operator or structural
    /// symbol.
    pub fn is_value(&self) -> (r: bool)
        ensures
            r == self.spec_is_value(),
    {
        match self {
            Token::Literal(_) | Token::PI | Token::E | Token::Ans => true,
            _ => false,
        }
    }
}

/// A literal token's payload lies within the decimal type's ranges.
pub open spec fn token_valid(t: Token) -> bool {
    match t {
        Token::Literal(d) => d.valid(),
        _ => true,
    }
}

/// Every token of the sequence is valid.
pub open spec fn tokens_valid(ts: Seq<Token>) -> bool {
    forall|k: int| 0 <= k < ts.len() ==> #[trigger] token_valid(ts[k])
}

/// Whether `c` is one of the unicode whitespace characters.
pub uninterp spec fn is_ws(c: char) -> bool;

/// Relies on `char::is_whitespace` of std: true exactly for characters with
/// the White_Space property, a function of the character alone.
pub assume_specification[ char::is_whitespace ](c: char) -> (r: bool)
    ensures
        r == is_ws(c),
;

/// Whether `c` is one of the unicode alphabetic characters.
pub uninterp spec fn is_alpha(c: char) -> bool;

/// Relies on `char::is_alphabetic` of std: true exactly for characters with
/// the Alphabetic property, a function of the character alone.
pub assume_specification[ char::is_alphabetic ](c: char) -> (r: bool)
    ensures
        r == is_alpha(c),
;

/// An ASCII decimal digit.
pub open spec fn is_digit_c(c: char) -> bool {
    48 <= c as u32 && c as u32 <= 57
}

/// The numeric value of an ASCII decimal digit.
pub open spec fn digit_val(c: char) -> int {
    c as u32 - 48
}

/// Case-insensitive match of `c` against a keyword character `k`: equal, or
/// `c` is the upper-case form of a lower-case ASCII `k`.
pub open spec fn eq_ic(c: char, k: char) -> bool {
    ||| c == k
    ||| (97 <= k as u32 && k as u32 <= 122 && c as u32 + 32 == k as u32)
}

/// The keyword, if any, that an identifier run resolves to.  The table is
/// fixed: `ans`, `pi` (also the Greek letter), `e`, `sin`, `cos`, `tan`,
/// `ln`, `log`, `exp`, `sqrt`, compared without regard to ASCII case.
pub open spec fn keyword_of(w: Seq<char>) -> Option<Token> {
    if w.len() == 3 && eq_ic(w[0], 'a') && eq_ic(w[1], 'n') && eq_ic(w[2], 's') {
        Some(Token::Ans)
    } else if w.len() == 2 && eq_ic(w[0], 'p') && eq_ic(w[1], 'i') {
        Some(Token::PI)
    } else if w.len() == 1 && w[0] as u32 == 960 {
        Some(Token::PI)
    } else if w.len() == 1 && eq_ic(w[0], 'e') {
        Some(Token::E)
    } else if w.len() == 3 && eq_ic(w[0], 's') && eq_ic(w[1], 'i') && eq_ic(w[2], 'n') {
        Some(Token::Sin)
    } else if w.len() == 3 && eq_ic(w[0], 'c') && eq_ic(w[1], 'o') && eq_ic(w[2], 's') {
        Some(Token::Cos)
    } else if w.len() == 3 && eq_ic(w[0], 't') && eq_ic(w[1], 'a') && eq_ic(w[2], 'n') {
        Some(Token::Tan)
    } else if w.len() == 2 && eq_ic(w[0], 'l') && eq_ic(w[1], 'n') {
        Some(Token::Ln)
    } else if w.len() == 3 && eq_ic(w[0], 'l') && eq_ic(w[1], 'o') && eq_ic(w[2], 'g') {
        Some(Token::Log)
    } else if w.len() == 3 && eq_ic(w[0], 'e') && eq_ic(w[1], 'x') && eq_ic(w[2], 'p') {
        Some(Token::Exp)
    } else if w.len() == 4 && eq_ic(w[0], 's') && eq_ic(w[1], 'q') && eq_ic(w[2], 'r') && eq_ic(
        w[3],
        't',
    ) {
        Some(Token::Sqrt)
    } else {
        None
    }
}

/// The token, if any, that a single symbol character maps to.  The root
/// sign is the unicode square-root character.
pub open spec fn symbol_of(c: char) -> Option<Token> {
    if c == '+' {
        Some(Token::Add)
    } else if c == '-' {
        Some(Token::Sub)
    } else if c == '*' {
        Some(Token::Mul)
    } else if c == ':' || c == '/' {
        Some(Token::Div)
    } else if c == '^' {
        Some(Token::Pow)
    } else if c as u32 == 8730 {
        Some(Token::Sqrt)
    } else if c == '!' {
        Some(Token::Factorial)
    } else if c == '(' {
        Some(Token::OpenParenthesis)
    } else if c == ')' {
        Some(Token::CloseParenthesis)
    } else if c == ',' {
        Some(Token::Comma)
    } else {
        None
    }
}

/// The length of the run of alphabetic characters starting at `k`.
pub open spec fn alpha_run_len(s: Seq<char>, k: int) -> nat
    decreases s.len() - k,
{
    if k < 0 || k >= s.len() || !is_alpha(s[k]) {
        0
    } else {
        1 + alpha_run_len(s, k + 1)
    }
}

pub proof fn lemma_alpha_run_len_bound(s: Seq<char>, k: int)
    requires
        0 <= k <= s.len(),
    ensures
        k + alpha_run_len(s, k) <= s.len(),
    decreases s.len() - k,
{
    if k < s.len() && is_alpha(s[k]) {
        lemma_alpha_run_len_bound(s, k + 1);
    }
}

/// The scan of a numeric run starting at `k`: the number of characters the
/// run covers, and whether the scan succeeded (a second decimal point in
/// the same run is a failure).
pub open spec fn num_scan(s: Seq<char>, k: int, dot: bool) -> (nat, bool)
    decreases s.len() - k,
{
    if k < 0 || k >= s.len() {
        (0, true)
    } else if is_digit_c(s[k]) {
        let r = num_scan(s, k + 1, dot);
        ((1 + r.0) as nat, r.1)
    } else if s[k] == '.' {
        if dot {
            (0, false)
        } else {
            let r = num_scan(s, k + 1, true);
            ((1 + r.0) as nat, r.1)
        }
    } else {
        (0, true)
    }
}

pub proof fn lemma_num_scan_bound(s: Seq<char>, k: int, dot: bool)
    requires
        0 <= k <= s.len(),
    ensures
        k + num_scan(s, k, dot).0 <= s.len(),
    decreases s.len() - k,
{
    if k < s.len() {
        if is_digit_c(s[k]) {
            lemma_num_scan_bound(s, k + 1, dot);
        } else if s[k] == '.' && !dot {
            lemma_num_scan_bound(s, k + 1, true);
        }
    }
}

pub proof fn lemma_num_scan_chars(s: Seq<char>, k: int, dot: bool)
    requires
        0 <= k <= s.len(),
    ensures
        forall|p: int|
            k <= p < k + num_scan(s, k, dot).0 ==> is_digit_c(#[trigger] s[p]) || s[p] == '.',
    decreases s.len() - k,
{
    if k < s.len() {
        if is_digit_c(s[k]) {
            lemma_num_scan_chars(s, k + 1, dot);
        } else if s[k] == '.' && !dot {
            lemma_num_scan_chars(s, k + 1, true);
        }
    }
}

pub proof fn lemma_tokens_valid_push(ts: Seq<Token>, t: Token)
    requires
        tokens_valid(ts),
        token_valid(t),
    ensures
        tokens_valid(ts.push(t)),
{
    assert forall|k: int| 0 <= k < ts.push(t).len() implies #[trigger] token_valid(
        ts.push(t)[k],
    ) by {
        if k < ts.len() {
            assert(ts.push(t)[k] == ts[k]);
        } else {
            assert(ts.push(t)[k] == t);
        }
    }
}

pub proof fn lemma_tokens_valid_insert(ts: Seq<Token>, pos: int, t: Token)
    requires
        tokens_valid(ts),
        token_valid(t),
        0 <= pos <= ts.len(),
    ensures
        tokens_valid(ts.insert(pos, t)),
{
    ts.insert_ensures(pos, t);
    assert forall|k: int| 0 <= k < ts.insert(pos, t).len() implies #[trigger] token_valid(
        ts.insert(pos, t)[k],
    ) by {
        if k < pos {
            assert(ts.insert(pos, t)[k] == ts[k]);
        } else if k == pos {
            assert(ts.insert(pos, t)[k] == t);
        } else {
            assert(ts.insert(pos, t)[k] == ts[k - 1]);
        }
    }
}

/// The decimal value of a numeric run, scanned from position `p` with the
/// digits so far in `m`, the fractional digits so far in `sc`, and whether
/// the decimal point has been passed in `dot`.  Digits are accumulated
/// while the mantissa and the scale stay within range; a further
/// fractional digit rounds the value half-up, as the decimal type's own
/// text parsing does; a further integral digit is an overflow.
pub open spec fn lit_scan(run: Seq<char>, p: int, m: int, sc: int, dot: bool) -> Option<Dec>
    decreases run.len() - p,
{
    if p < 0 || p >= run.len() {
        Some(Dec { mantissa: m as i128, scale: sc as u32 })
    } else if run[p] == '.' {
        lit_scan(run, p + 1, m, sc, true)
    } else {
        let d = digit_val(run[p]);
        if m * 10 + d <= MAX_MANTISSA && (!dot || sc < MAX_SCALE) {
            lit_scan(run, p + 1, m * 10 + d, if dot { sc + 1 } else { sc }, dot)
        } else if !dot {
            None
        } else if d >= 5 {
            if m + 1 <= MAX_MANTISSA {
                Some(Dec { mantissa: (m + 1) as i128, scale: sc as u32 })
            } else if sc == 0 {
                None
            } else {
                Some(Dec { mantissa: ((m + 5) / 10) as i128, scale: (sc - 1) as u32 })
            }
        } else {
            Some(Dec { mantissa: m as i128, scale: sc as u32 })
        }
    }
}

/// The decimal value, if any, of a whole numeric run.
pub open spec fn lit_value(run: Seq<char>) -> Option<Dec> {
    lit_scan(run, 0, 0, 0, false)
}

/// Append a token that begins a value or group (a keyword, an open
/// parenthesis, a root sign), inserting the implicit-multiplication token
/// first when the previous token is a value.
pub open spec fn push_ident(acc: Seq<Token>, t: Token) -> Seq<Token> {
    if acc.len() > 0 && acc.last().spec_is_value() {
        acc.push(Token::ImplMul).push(t)
    } else {
        acc.push(t)
    }
}

/// The position in `p`, scanned backward, of the open parenthesis matching
/// a close parenthesis just beyond `p` at nesting `depth`; the front of the
/// sequence when there is none.
pub open spec fn open_idx(p: Seq<Token>, depth: int) -> int
    decreases p.len(),
{
    if p.len() == 0 {
        0
    } else if p.last() == Token::OpenParenthesis {
        if depth == 0 {
            p.len() - 1
        } else {
            open_idx(p.drop_last(), depth - 1)
        }
    } else if p.last() == Token::CloseParenthesis {
        open_idx(p.drop_last(), depth + 1)
    } else {
        open_idx(p.drop_last(), depth)
    }
}

pub proof fn lemma_open_idx_bound(p: Seq<Token>, depth: int)
    ensures
        0 <= open_idx(p, depth) <= p.len(),
    decreases p.len(),
{
    if p.len() > 0 {
        lemma_open_idx_bound(p.drop_last(), depth - 1);
        lemma_open_idx_bound(p.drop_last(), depth + 1);
        lemma_open_idx_bound(p.drop_last(), depth);
    }
}

/// Re-associate a factorial sign: insert the factorial token in front of
/// the operand it applies to — the preceding value token, or the whole
/// balanced parenthesized group ending just before it; at the front of the
/// stream when the group's opening is missing, leaving the imbalance for
/// the parser to report.
pub open spec fn push_factorial(acc: Seq<Token>) -> Seq<Token> {
    if acc.len() == 0 {
        acc.push(Token::Factorial)
    } else if acc.last().spec_is_value() {
        acc.insert(acc.len() - 1, Token::Factorial)
    } else if acc.last() == Token::CloseParenthesis {
        acc.insert(open_idx(acc.drop_last(), 0), Token::Factorial)
    } else {
        acc.push(Token::Factorial)
    }
}

/// The tokenizer's scan, from position `i` with the tokens emitted so far
/// in `acc`: skip whitespace; resolve alphabetic runs against the keyword
/// table; parse numeric runs as literals; map single symbols to tokens,
/// inserting implicit multiplication and re-associating factorial signs.
pub open spec fn tok_scan(s: Seq<char>, i: int, acc: Seq<Token>) -> Option<Seq<Token>>
    decreases s.len() - i,
    via tok_scan_decreases
{
    if i < 0 || i >= s.len() {
        Some(acc)
    } else if is_ws(s[i]) {
        tok_scan(s, i + 1, acc)
    } else if is_alpha(s[i]) {
        let j = i + 1 + alpha_run_len(s, i + 1);
        match keyword_of(s.subrange(i, j)) {
            None => None,
            Some(t) => tok_scan(s, j, push_ident(acc, t)),
        }
    } else if is_digit_c(s[i]) {
        let r = num_scan(s, i + 1, false);
        if !r.1 {
            None
        } else {
            let j = i + 1 + r.0;
            match lit_value(s.subrange(i, j)) {
                None => None,
                Some(d) => tok_scan(s, j, acc.push(Token::Literal(d))),
            }
        }
    } else {
        match symbol_of(s[i]) {
            None => None,
            Some(t) => {
                if t == Token::OpenParenthesis || t == Token::Sqrt {
                    tok_scan(s, i + 1, push_ident(acc, t))
                } else if t == Token::Factorial {
                    tok_scan(s, i + 1, push_factorial(acc))
                } else {
                    tok_scan(s, i + 1, acc.push(t))
                }
            },
        }
    }
}

#[via_fn]
proof fn tok_scan_decreases(s: Seq<char>, i: int, acc: Seq<Token>) {
    if 0 <= i < s.len() {
        lemma_alpha_run_len_bound(s, i + 1);
        lemma_num_scan_bound(s, i + 1, false);
    }
}

/// The token sequence of a whole source text, or nothing when some
/// character, identifier or literal does not scan.
pub open spec fn spec_tokenize(s: Seq<char>) -> Option<Seq<Token>> {
    tok_scan(s, 0, Seq::empty())
}

pub proof fn lemma_lit_scan_valid(run: Seq<char>, p: int, m: int, sc: int, dot: bool)
    requires
        0 <= m <= MAX_MANTISSA,
        0 <= sc <= MAX_SCALE,
        forall|k: int| 0 <= k < run.len() ==> is_digit_c(#[trigger] run[k]) || run[k] == '.',
    ensures
        lit_scan(run, p, m, sc, dot) matches Some(d) ==> d.valid(),
    decreases run.len() - p,
{
    if p < 0 || p >= run.len() {
    } else if run[p] == '.' {
        lemma_lit_scan_valid(run, p + 1, m, sc, true);
    } else {
        let d = digit_val(run[p]);
        if m * 10 + d <= MAX_MANTISSA && (!dot || sc < MAX_SCALE) {
            lemma_lit_scan_valid(run, p + 1, m * 10 + d, if dot { sc + 1 } else { sc }, dot);
        }
    }
}

proof fn lemma_push_ident_valid(acc: Seq<Token>, t: Token)
    requires
        tokens_valid(acc),
        token_valid(t),
    ensures
        tokens_valid(push_ident(acc, t)),
{
    if acc.len() > 0 && acc.last().spec_is_value() {
        lemma_tokens_valid_push(acc, Token::ImplMul);
        lemma_tokens_valid_push(acc.push(Token::ImplMul), t);
    } else {
        lemma_tokens_valid_push(acc, t);
    }
}

proof fn lemma_push_factorial_valid(acc: Seq<Token>)
    requires
        tokens_valid(acc),
    ensures
        tokens_valid(push_factorial(acc)),
{
    if acc.len() == 0 {
        lemma_tokens_valid_push(acc, Token::Factorial);
    } else if acc.last().spec_is_value() {
        lemma_tokens_valid_insert(acc, acc.len() - 1, Token::Factorial);
    } else if acc.last() == Token::CloseParenthesis {
        lemma_open_idx_bound(acc.drop_last(), 0);
        lemma_tokens_valid_insert(acc, open_idx(acc.drop_last(), 0), Token::Factorial);
    } else {
        lemma_tokens_valid_push(acc, Token::Factorial);
    }
}

proof fn lemma_tok_scan_valid(s: Seq<char>, i: int, acc: Seq<Token>)
    requires
        tokens_valid(acc),
    ensures
        tok_scan(s, i, acc) matches Some(ts) ==> tokens_valid(ts),
    decreases s.len() - i,
{
    if i < 0 || i >= s.len() {
    } else if is_ws(s[i]) {
        lemma_tok_scan_valid(s, i + 1, acc);
    } else if is_alpha(s[i]) {
        let j = i + 1 + alpha_run_len(s, i + 1);
        lemma_alpha_run_len_bound(s, i + 1);
        match keyword_of(s.subrange(i, j)) {
            None => {},
            Some(t) => {
                lemma_push_ident_valid(acc, t);
                lemma_tok_scan_valid(s, j, push_ident(acc, t));
            },
        }
    } else if is_digit_c(s[i]) {
        let r = num_scan(s, i + 1, false);
        if r.1 {
            let j = i + 1 + r.0;
            lemma_num_scan_bound(s, i + 1, false);
            match lit_value(s.subrange(i, j)) {
                None => {},
                Some(d) => {
                    lemma_num_scan_chars(s, i + 1, false);
                    assert forall|k: int| 0 <= k < s.subrange(i, j).len() implies is_digit_c(
                        #[trigger] s.subrange(i, j)[k],
                    ) || s.subrange(i, j)[k] == '.' by {
                        assert(s.subrange(i, j)[k] == s[i + k]);
                    }
                    lemma_lit_scan_valid(s.subrange(i, j), 0, 0, 0, false);
                    lemma_tokens_valid_push(acc, Token::Literal(d));
                    lemma_tok_scan_valid(s, j, acc.push(Token::Literal(d)));
                },
            }
        }
    } else {
        match symbol_of(s[i]) {
            None => {},
            Some(t) => {
                if t == Token::OpenParenthesis || t == Token::Sqrt {
                    lemma_push_ident_valid(acc, t);
                    lemma_tok_scan_valid(s, i + 1, push_ident(acc, t));
                } else if t == Token::Factorial {
                    lemma_push_factorial_valid(acc);
                    lemma_tok_scan_valid(s, i + 1, push_factorial(acc));
                } else {
                    lemma_tokens_valid_push(acc, t);
                    lemma_tok_scan_valid(s, i + 1, acc.push(t));
                }
            },
        }
    }
}

/// Every token the scan emits is valid: in particular, every literal's
/// parts lie within the decimal type's ranges.
pub proof fn lemma_spec_tokenize_valid(s: Seq<char>)
    ensures
        spec_tokenize(s) matches Some(ts) ==> tokens_valid(ts),
{
    lemma_tok_scan_valid(s, 0, Seq::empty());
}

fn eq_ic_x(c: char, k: char) -> (r: bool)
    ensures
        r == eq_ic(c, k),
{
    c == k || (97 <= k as u32 && k as u32 <= 122 && c as u32 + 32 == k as u32)
}

/// Resolve the identifier run `s[i..j]` against the keyword table.
fn kw_token(s: &str, i: usize, j: usize) -> (r: Option<Token>)
    requires
        i <= j <= s@.len(),
    ensures
        r == keyword_of(s@.subrange(i as int, j as int)),
        r matches Some(t) ==> token_valid(t),
{
    let n = j - i;
    if n == 3 && eq_ic_x(s.get_char(i), 'a') && eq_ic_x(s.get_char(i + 1), 'n') && eq_ic_x(
        s.get_char(i + 2),
        's',
    ) {
        Some(Token::Ans)
    } else if n == 2 && eq_ic_x(s.get_char(i), 'p') && eq_ic_x(s.get_char(i + 1), 'i') {
        Some(Token::PI)
    } else if n == 1 && s.get_char(i) as u32 == 960 {
        Some(Token::PI)
    } else if n == 1 && eq_ic_x(s.get_char(i), 'e') {
        Some(Token::E)
    } else if n == 3 && eq_ic_x(s.get_char(i), 's') && eq_ic_x(s.get_char(i + 1), 'i') && eq_ic_x(
        s.get_char(i + 2),
        'n',
    ) {
        Some(Token::Sin)
    } else if n == 3 && eq_ic_x(s.get_char(i), 'c') && eq_ic_x(s.get_char(i + 1), 'o') && eq_ic_x(
        s.get_char(i + 2),
        's',
    ) {
        Some(Token::Cos)
    } else if n == 3 && eq_ic_x(s.get_char(i), 't') && eq_ic_x(s.get_char(i + 1), 'a') && eq_ic_x(
        s.get_char(i + 2),
        'n',
    ) {
        Some(Token::Tan)
    } else if n == 2 && eq_ic_x(s.get_char(i), 'l') && eq_ic_x(s.get_char(i + 1), 'n') {
        Some(Token::Ln)
    } else if n == 3 && eq_ic_x(s.get_char(i), 'l') && eq_ic_x(s.get_char(i + 1), 'o') && eq_ic_x(
        s.get_char(i + 2),
        'g',
    ) {
        Some(Token::Log)
    } else if n == 3 && eq_ic_x(s.get_char(i), 'e') && eq_ic_x(s.get_char(i + 1), 'x') && eq_ic_x(
        s.get_char(i + 2),
        'p',
    ) {
        Some(Token::Exp)
    } else if n == 4 && eq_ic_x(s.get_char(i), 's') && eq_ic_x(s.get_char(i + 1), 'q') && eq_ic_x(
        s.get_char(i + 2),
        'r',
    ) && eq_ic_x(s.get_char(i + 3), 't') {
        Some(Token::Sqrt)
    } else {
        None
    }
}

fn symbol_token(c: char) -> (r: Option<Token>)
    ensures
        r == symbol_of(c),
        r matches Some(t) ==> token_valid(t),
{
    if c == '+' {
        Some(Token::Add)
    } else if c == '-' {
        Some(Token::Sub)
    } else if c == '*' {
        Some(Token::Mul)
    } else if c == ':' || c == '/' {
        Some(Token::Div)
    } else if c == '^' {
        Some(Token::Pow)
    } else if c as u32 == 8730 {
        Some(Token::Sqrt)
    } else if c == '!' {
        Some(Token::Factorial)
    } else if c == '(' {
        Some(Token::OpenParenthesis)
    } else if c == ')' {
        Some(Token::CloseParenthesis)
    } else if c == ',' {
        Some(Token::Comma)
    } else {
        None
    }
}

/// Find the end of the run of alphabetic characters starting at `k`.
fn alpha_run(s: &str, k: usize, n: usize) -> (j: usize)
    requires
        k <= n,
        n == s@.len(),
    ensures
        j == k + alpha_run_len(s@, k as int),
{
    let mut j = k;
    loop
        invariant
            k <= j <= n,
            n == s@.len(),
            alpha_run_len(s@, k as int) == (j - k) + alpha_run_len(s@, j as int),
        decreases n - j,
    {
        if j >= n {
            return j;
        }
        let c = s.get_char(j);
        if !c.is_alphabetic() {
            return j;
        }
        proof {
            lemma_alpha_run_len_bound(s@, j as int + 1);
        }
        j = j + 1;
    }
}

/// Scan the numeric run starting at `k`: its end, and whether it scanned
/// without a second decimal point.
fn num_run(s: &str, k: usize, n: usize) -> (r: (usize, bool))
    requires
        k <= n,
        n == s@.len(),
    ensures
        r.0 == k + num_scan(s@, k as int, false).0,
        r.1 == num_scan(s@, k as int, false).1,
        k <= r.0 <= n,
{
    let mut j = k;
    let mut dot = false;
    loop
        invariant
            k <= j <= n,
            n == s@.len(),
            num_scan(s@, k as int, false).0 == (j - k) + num_scan(s@, j as int, dot).0,
            num_scan(s@, k as int, false).1 == num_scan(s@, j as int, dot).1,
        decreases n - j,
    {
        if j >= n {
            return (j, true);
        }
        let c = s.get_char(j);
        let u = c as u32;
        if 48 <= u && u <= 57 {
            proof {
                lemma_num_scan_bound(s@, j as int + 1, dot);
            }
            j = j + 1;
        } else if c == '.' {
            if dot {
                return (j, false);
            }
            proof {
                lemma_num_scan_bound(s@, j as int + 1, true);
            }
            dot = true;
            j = j + 1;
        } else {
            return (j, true);
        }
    }
}

/// Parse the numeric run `s[i..j]` into a decimal value.
fn lit_parse(s: &str, i: usize, j: usize) -> (r: Option<Dec>)
    requires
        i <= j <= s@.len(),
        forall|k: int| i <= k < j ==> is_digit_c(#[trigger] s@[k]) || s@[k] == '.',
    ensures
        r == lit_value(s@.subrange(i as int, j as int)),
        r matches Some(d) ==> d.valid(),
{
    let ghost run = s@.subrange(i as int, j as int);
    let mut p = i;
    let mut m: i128 = 0;
    let mut sc: u32 = 0;
    let mut dot = false;
    loop
        invariant
            i <= p <= j <= s@.len(),
            forall|k: int| i <= k < j ==> is_digit_c(#[trigger] s@[k]) || s@[k] == '.',
            run == s@.subrange(i as int, j as int),
            0 <= m <= MAX_MANTISSA,
            sc <= MAX_SCALE,
            lit_value(run) == lit_scan(run, p - i, m as int, sc as int, dot),
        decreases j - p,
    {
        if p >= j {
            return Some(Dec { mantissa: m, scale: sc });
        }
        let c = s.get_char(p);
        assert(run[p - i] == s@[p as int]);
        if c == '.' {
            dot = true;
            p = p + 1;
        } else {
            assert(is_digit_c(s@[p as int]) || s@[p as int] == '.');
            assert(is_digit_c(c));
            let d = (c as u32 - 48) as i128;
            assert(d == digit_val(run[p - i]));
            if m * 10 + d <= MAX_MANTISSA && (!dot || sc < MAX_SCALE) {
                m = m * 10 + d;
                if dot {
                    sc = sc + 1;
                }
                p = p + 1;
            } else if !dot {
                return None;
            } else if d >= 5 {
                if m + 1 <= MAX_MANTISSA {
                    return Some(Dec { mantissa: m + 1, scale: sc });
                } else if sc == 0 {
                    return None;
                } else {
                    return Some(Dec { mantissa: (m + 5) / 10, scale: sc - 1 });
                }
            } else {
                return Some(Dec { mantissa: m, scale: sc });
            }
        }
    }
}

/// Append a value-or-group-starting token, inserting the
/// implicit-multiplication token first when a value precedes.
fn push_tok_ident(toks: &mut Vec<Token>, t: Token)
    ensures
        final(toks)@ == push_ident(old(toks)@, t),
        tokens_valid(old(toks)@) && token_valid(t) ==> tokens_valid(final(toks)@),
{
    let ghost before = toks@;
    let insert_mul = match toks.last() {
        Some(prev) => prev.is_value(),
        None => false,
    };
    if insert_mul {
        toks.push(Token::ImplMul);
    }
    toks.push(t);
    proof {
        if tokens_valid(before) && token_valid(t) {
            if insert_mul {
                lemma_tokens_valid_push(before, Token::ImplMul);
                lemma_tokens_valid_push(before.push(Token::ImplMul), t);
            } else {
                lemma_tokens_valid_push(before, t);
            }
        }
    }
}

/// Insert a factorial token in front of the operand it applies to.
fn push_tok_factorial(toks: &mut Vec<Token>)
    ensures
        final(toks)@ == push_factorial(old(toks)@),
        tokens_valid(old(toks)@) ==> tokens_valid(final(toks)@),
{
    let ghost before = toks@;
    let n = toks.len();
    if n == 0 {
        toks.push(Token::Factorial);
        proof {
            if tokens_valid(before) {
                lemma_tokens_valid_push(before, Token::Factorial);
            }
        }
        return ;
    }
    let last_is_value = toks[n - 1].is_value();
    if last_is_value {
        toks.insert(n - 1, Token::Factorial);
        proof {
            if tokens_valid(before) {
                lemma_tokens_valid_insert(before, n - 1, Token::Factorial);
            }
        }
        return ;
    }
    let last_is_close = match toks[n - 1] {
        Token::CloseParenthesis => true,
        _ => false,
    };
    if !last_is_close {
        toks.push(Token::Factorial);
        proof {
            if tokens_valid(before) {
                lemma_tokens_valid_push(before, Token::Factorial);
            }
        }
        return ;
    }
    // scan backward through the emitted stream for the matching open
    let ghost q = before.drop_last();
    let mut t = n - 1;
    let mut depth: usize = 0;
    loop
        invariant
            0 <= t <= n - 1,
            toks@ == before,
            before == old(toks)@,
            n == before.len(),
            1 <= n,
            !before.last().spec_is_value(),
            before.last() == Token::CloseParenthesis,
            q == before.drop_last(),
            depth + t <= n - 1,
            open_idx(q, 0) == open_idx(before.subrange(0, t as int), depth as int),
        decreases t,
    {
        assert(before.subrange(0, t as int).len() == t as int);
        if t == 0 {
            proof {
                if tokens_valid(before) {
                    lemma_tokens_valid_insert(before, 0, Token::Factorial);
                }
            }
            toks.insert(0, Token::Factorial);
            return ;
        }
        let prev = toks[t - 1];
        proof {
            assert(before.subrange(0, t as int).last() == before[t - 1]);
            assert(before.subrange(0, t as int).drop_last() =~= before.subrange(0, t as int - 1));
        }
        match prev {
            Token::OpenParenthesis => {
                if depth == 0 {
                    proof {
                        lemma_open_idx_bound(q, 0);
                        if tokens_valid(before) {
                            lemma_tokens_valid_insert(before, t - 1, Token::Factorial);
                        }
                    }
                    toks.insert(t - 1, Token::Factorial);
                    return ;
                }
                depth = depth - 1;
                t = t - 1;
            },
            Token::CloseParenthesis => {
                depth = depth + 1;
                t = t - 1;
            },
            _ => {
                t = t - 1;
            },
        }
    }
}

/// Scan the source text into its token sequence; nothing when a character
/// cannot be resolved, an identifier matches no keyword, or a numeric
/// literal is malformed or out of range.
pub fn tokenize(source: String) -> (r: Option<Vec<Token>>)
    ensures
        r is Some <==> spec_tokenize(source@) is Some,
        r matches Some(v) ==> Some(v@) == spec_tokenize(source@) && tokens_valid(v@),
{
    let s = source.as_str();
    let n = s.unicode_len();
    let mut toks: Vec<Token> = Vec::new();
    let mut i: usize = 0;
    loop
        invariant
            0 <= i <= n,
            n == s@.len(),
            s@ == source@,
            spec_tokenize(source@) == tok_scan(s@, i as int, toks@),
            tokens_valid(toks@),
        decreases n - i,
    {
        if i >= n {
            return Some(toks);
        }
        let c = s.get_char(i);
        if c.is_whitespace() {
            i = i + 1;
        } else if c.is_alphabetic() {
            let j = alpha_run(s, i + 1, n);
            proof {
                lemma_alpha_run_len_bound(s@, i as int + 1);
            }
            match kw_token(s, i, j) {
                None => {
                    return None;
                },
                Some(t) => {
                    push_tok_ident(&mut toks, t);
                    i = j;
                },
            }
        } else {
            let u = c as u32;
            if 48 <= u && u <= 57 {
                let (j, ok) = num_run(s, i + 1, n);
                if !ok {
                    return None;
                }
                proof {
                    lemma_num_scan_chars(s@, i as int + 1, false);
                }
                match lit_parse(s, i, j) {
                    None => {
                        return None;
                    },
                    Some(d) => {
                        proof {
                            lemma_tokens_valid_push(toks@, Token::Literal(d));
                        }
                        toks.push(Token::Literal(d));
                        i = j;
                    },
                }
            } else {
                match symbol_token(c) {
                    None => {
                        return None;
                    },
                    Some(t) => {
                        match t {
                            Token::OpenParenthesis | Token::Sqrt => {
                                push_tok_ident(&mut toks, t);
                            },
                            Token::Factorial => {
                                push_tok_factorial(&mut toks);
                            },
                            _ => {
                                proof {
                                    lemma_tokens_valid_push(toks@, t);
                                }
                                toks.push(t);
                            },
                        }
                        i = i + 1;
                    },
                }
            }
        }
    }
}

} // verus!
