//! The parser: one input line to one syntax tree, or a parse failure when
//! the line does not match the grammar or leaves trailing text.
//!
//! The grammar, with alternatives tried in order and the first match
//! winning (the ordering is part of the contract):
//!
//! - an expression is an assignment, else a conditional, else a chain;
//! - an assignment is `let`, whitespace, an identifier, `=`, an expression;
//! - a conditional is `if`, an expression, a branch keyword, an expression,
//!   `else`, an expression, with whitespace between the parts;
//! - a chain is a value followed either by an operator chain (`+ - * /`,
//!   all of equal precedence, associating to the left, each operand a
//!   value) or, when the value is an identifier and no operator follows, by
//!   one or more whitespace-separated argument expressions, which makes it
//!   a command;
//! - a value is an unsigned integer literal, a double-quoted string
//!   literal, an identifier, or a parenthesized expression.
//!
//! Identifiers start with a letter, continue with letters and digits, and
//! are never keywords. A number too large for 64 bits matches no
//! alternative. The functions `p_expr_s` and friends are the mathematical
//! statement of this grammar; each executable function is proved to return
//! exactly what its spec counterpart says.

use vstd::prelude::*;

use crate::ast::{BinOp, Cmd, Expr, ExprV, lemma_view_args_push, view_args};
use crate::interp::Failure;

verus! {

/// Whitespace: space, tab, carriage return, line feed.
pub open spec fn is_ws_char(c: char) -> bool {
    c == ' ' || c == '\t' || c == '\r' || c == '\n'
}

/// A decimal digit.
pub open spec fn is_digit_char(c: char) -> bool {
    48 <= c as u32 <= 57
}

/// A letter of the basic alphabet, either case.
pub open spec fn is_alpha_char(c: char) -> bool {
    (65 <= c as u32 <= 90) || (97 <= c as u32 <= 122)
}

/// A letter or a digit: what an identifier is made of.
pub open spec fn is_alnum_char(c: char) -> bool {
    is_alpha_char(c) || is_digit_char(c)
}

/// An operator character.
pub open spec fn is_op_char(c: char) -> bool {
    c == '+' || c == '-' || c == '*' || c == '/'
}

/// The operator a character stands for.
pub open spec fn op_of(c: char) -> BinOp {
    if c == '+' {
        BinOp::Add
    } else if c == '-' {
        BinOp::Sub
    } else if c == '*' {
        BinOp::Mul
    } else {
        BinOp::Div
    }
}

/// The numeric value of a digit character; other characters count as zero.
pub open spec fn digit_val(c: char) -> int {
    if is_digit_char(c) {
        c as u32 - 48
    } else {
        0
    }
}

/// The first position at or after `i` that does not hold whitespace.
pub open spec fn skip_ws_s(s: Seq<char>, i: int) -> int
    decreases s.len() - i,
{
    if 0 <= i && i < s.len() && is_ws_char(s[i]) {
        skip_ws_s(s, i + 1)
    } else {
        i
    }
}

/// The first position at or after `i` that does not hold a digit.
pub open spec fn scan_digits_s(s: Seq<char>, i: int) -> int
    decreases s.len() - i,
{
    if 0 <= i && i < s.len() && is_digit_char(s[i]) {
        scan_digits_s(s, i + 1)
    } else {
        i
    }
}

/// The first position at or after `i` that does not hold a letter or digit.
pub open spec fn scan_alnum_s(s: Seq<char>, i: int) -> int
    decreases s.len() - i,
{
    if 0 <= i && i < s.len() && is_alnum_char(s[i]) {
        scan_alnum_s(s, i + 1)
    } else {
        i
    }
}

/// The first position at or after `i` that holds a double quote, or the
/// end of the input.
pub open spec fn scan_quote_s(s: Seq<char>, i: int) -> int
    decreases s.len() - i,
{
    if 0 <= i && i < s.len() && s[i] != '"' {
        scan_quote_s(s, i + 1)
    } else {
        i
    }
}

/// The value of the digit run `s[i..j)` read as a decimal number.
pub open spec fn digits_val_s(s: Seq<char>, i: int, j: int) -> int
    decreases j - i,
{
    if i < j {
        digits_val_s(s, i, j - 1) * 10 + digit_val(s[j - 1])
    } else {
        0
    }
}

/// The keyword that introduces an assignment.
pub open spec fn kw_let() -> Seq<char> {
    seq!['l', 'e', 't']
}

/// The keyword that introduces a conditional.
pub open spec fn kw_if() -> Seq<char> {
    seq!['i', 'f']
}

/// The keyword before the branch a true predicate selects.
pub open spec fn kw_thn() -> Seq<char> {
    seq!['t', 'h', 'e', 'n']
}

/// The keyword before the branch a false predicate selects.
pub open spec fn kw_els() -> Seq<char> {
    seq!['e', 'l', 's', 'e']
}

/// Whether a word is one of the four keywords, which are never identifiers.
pub open spec fn is_keyword(w: Seq<char>) -> bool {
    w == kw_let() || w == kw_if() || w == kw_thn() || w == kw_els()
}

/// Whether the word `w` stands at position `i` of `s`.
pub open spec fn matches_at(s: Seq<char>, i: int, w: Seq<char>) -> bool {
    0 <= i && i + w.len() <= s.len() && s.subrange(i, i + w.len()) == w
}

/// The identifier at position `i`: a maximal run of letters and digits
/// starting with a letter, unless it is a keyword.
pub open spec fn ident_s(s: Seq<char>, i: int) -> Option<(Seq<char>, int)> {
    if 0 <= i && i < s.len() && is_alpha_char(s[i]) {
        let j = scan_alnum_s(s, i);
        let w = s.subrange(i, j);
        if is_keyword(w) {
            None
        } else {
            Some((w, j))
        }
    } else {
        None
    }
}

/// The value at position `i`: a whole-number literal, a string literal, an
/// identifier, or a parenthesized expression, tried in that order.
pub open spec fn p_value_s(s: Seq<char>, i: int) -> Option<(ExprV, int)>
    decreases s.len() - i, 0int,
{
    if i < 0 || i >= s.len() {
        None
    } else if is_digit_char(s[i]) {
        let j = scan_digits_s(s, i);
        let v = digits_val_s(s, i, j);
        if v <= u64::MAX {
            Some((ExprV::UInt64(v as u64), j))
        } else {
            None
        }
    } else if s[i] == '"' {
        let j = scan_quote_s(s, i + 1);
        if j < s.len() {
            Some((ExprV::Str(s.subrange(i + 1, j)), j + 1))
        } else {
            None
        }
    } else if s[i] == '(' {
        let k = skip_ws_s(s, i + 1);
        if i < k && k <= s.len() {
            match p_expr_s(s, k) {
                None => None,
                Some((e, j)) => {
                    let k2 = skip_ws_s(s, j);
                    if k2 < s.len() && s[k2] == ')' {
                        Some((e, k2 + 1))
                    } else {
                        None
                    }
                },
            }
        } else {
            None
        }
    } else {
        match ident_s(s, i) {
            None => None,
            Some((w, j)) => Some((ExprV::Iden(w), j)),
        }
    }
}

/// The rest of an operator chain after the operand `acc` ending at `i`:
/// as long as an operator follows, its right operand (a value) is folded
/// into the chain from the left.
pub open spec fn p_ops_s(s: Seq<char>, acc: ExprV, i: int) -> Option<(ExprV, int)>
    decreases s.len() - i, 1int,
{
    let j = skip_ws_s(s, i);
    if 0 <= i && i <= j && j < s.len() && is_op_char(s[j]) {
        let op = op_of(s[j]);
        let k = skip_ws_s(s, j + 1);
        if i < k && k <= s.len() {
            match p_value_s(s, k) {
                None => None,
                Some((v, j2)) => if i < j2 && j2 <= s.len() {
                    p_ops_s(s, ExprV::BinOp(op, Box::new(acc), Box::new(v)), j2)
                } else {
                    None
                },
            }
        } else {
            None
        }
    } else {
        Some((acc, i))
    }
}

/// The argument expressions after position `i`, each preceded by at least
/// one whitespace character; collection stops at the first position where
/// no further argument parses.
pub open spec fn p_args_s(s: Seq<char>, acc: Seq<ExprV>, i: int) -> (Seq<ExprV>, int)
    decreases s.len() - i, 1int,
{
    let j = skip_ws_s(s, i);
    if 0 <= i && i < j && j < s.len() {
        match p_expr_s(s, j) {
            None => (acc, i),
            Some((a, j2)) => if i < j2 && j2 <= s.len() {
                p_args_s(s, acc.push(a), j2)
            } else {
                (acc, i)
            },
        }
    } else {
        (acc, i)
    }
}

/// A chain: a value, continued either by an operator chain or, when the
/// value is an identifier and no operator follows, by command arguments.
pub open spec fn p_chain_s(s: Seq<char>, i: int) -> Option<(ExprV, int)>
    decreases s.len() - i, 2int,
{
    match p_value_s(s, i) {
        None => None,
        Some((v, j)) => if i < j && j <= s.len() {
            let j2 = skip_ws_s(s, j);
            if j2 < s.len() && is_op_char(s[j2]) {
                p_ops_s(s, v, j)
            } else if v is Iden {
                let (args, end) = p_args_s(s, Seq::empty(), j);
                if args.len() > 0 {
                    Some((ExprV::Cmd(v->Iden_0, args), end))
                } else {
                    Some((v, j))
                }
            } else {
                Some((v, j))
            }
        } else {
            None
        },
    }
}

/// An assignment: `let`, whitespace, an identifier, `=`, an expression.
pub open spec fn p_assign_s(s: Seq<char>, i: int) -> Option<(ExprV, int)>
    decreases s.len() - i, 2int,
{
    if matches_at(s, i, kw_let()) && i + 3 < s.len() && is_ws_char(s[i + 3]) {
        let k = skip_ws_s(s, i + 3);
        match ident_s(s, k) {
            None => None,
            Some((name, k2)) => {
                let k3 = skip_ws_s(s, k2);
                if k3 < s.len() && s[k3] == '=' {
                    let k4 = skip_ws_s(s, k3 + 1);
                    if i < k4 && k4 <= s.len() {
                        match p_expr_s(s, k4) {
                            None => None,
                            Some((e, j2)) => Some((ExprV::Assign(name, Box::new(e)), j2)),
                        }
                    } else {
                        None
                    }
                } else {
                    None
                }
            },
        }
    } else {
        None
    }
}

/// A conditional: `if`, a predicate, the branch keywords and their
/// branches, all separated by whitespace.
pub open spec fn p_cond_s(s: Seq<char>, i: int) -> Option<(ExprV, int)>
    decreases s.len() - i, 2int,
{
    if matches_at(s, i, kw_if()) && i + 2 < s.len() && is_ws_char(s[i + 2]) {
        let k = skip_ws_s(s, i + 2);
        if i < k && k <= s.len() {
            match p_expr_s(s, k) {
                None => None,
                Some((p, j)) => if j < s.len() && is_ws_char(s[j]) {
                    let k2 = skip_ws_s(s, j);
                    if matches_at(s, k2, kw_thn()) && k2 + 4 < s.len() && is_ws_char(s[k2 + 4]) {
                        let k3 = skip_ws_s(s, k2 + 4);
                        if i < k3 && k3 <= s.len() {
                            match p_expr_s(s, k3) {
                                None => None,
                                Some((t, j3)) => if j3 < s.len() && is_ws_char(s[j3]) {
                                    let k4 = skip_ws_s(s, j3);
                                    if matches_at(s, k4, kw_els()) && k4 + 4 < s.len()
                                        && is_ws_char(s[k4 + 4]) {
                                        let k5 = skip_ws_s(s, k4 + 4);
                                        if i < k5 && k5 <= s.len() {
                                            match p_expr_s(s, k5) {
                                                None => None,
                                                Some((e2, j5)) => Some(
                                                    (
                                                        ExprV::Cond(
                                                            Box::new(p),
                                                            Box::new(t),
                                                            Box::new(e2),
                                                        ),
                                                        j5,
                                                    ),
                                                ),
                                            }
                                        } else {
                                            None
                                        }
                                    } else {
                                        None
                                    }
                                } else {
                                    None
                                },
                            }
                        } else {
                            None
                        }
                    } else {
                        None
                    }
                } else {
                    None
                },
            }
        } else {
            None
        }
    } else {
        None
    }
}

/// An expression: an assignment, else a conditional, else a chain.
pub open spec fn p_expr_s(s: Seq<char>, i: int) -> Option<(ExprV, int)>
    decreases s.len() - i, 3int,
{
    match p_assign_s(s, i) {
        Some(r) => Some(r),
        None => match p_cond_s(s, i) {
            Some(r) => Some(r),
            None => p_chain_s(s, i),
        },
    }
}

/// The tree of a full input line: an expression that consumes the whole
/// line, or nothing.
pub open spec fn parse_s(s: Seq<char>) -> Option<ExprV> {
    match p_expr_s(s, 0) {
        None => None,
        Some((e, j)) => if j == s.len() {
            Some(e)
        } else {
            None
        },
    }
}

proof fn lemma_digits_val_nonneg(s: Seq<char>, i: int, j: int)
    ensures
        digits_val_s(s, i, j) >= 0,
    decreases j - i,
{
    if i < j {
        lemma_digits_val_nonneg(s, i, j - 1);
    }
}

proof fn lemma_scan_digits_lb(s: Seq<char>, i: int)
    ensures
        scan_digits_s(s, i) >= i,
    decreases s.len() - i,
{
    if 0 <= i && i < s.len() && is_digit_char(s[i]) {
        lemma_scan_digits_lb(s, i + 1);
    }
}

proof fn lemma_scan_alnum_lb(s: Seq<char>, i: int)
    ensures
        scan_alnum_s(s, i) >= i,
    decreases s.len() - i,
{
    if 0 <= i && i < s.len() && is_alnum_char(s[i]) {
        lemma_scan_alnum_lb(s, i + 1);
    }
}

/// Whether a character is whitespace.
fn is_ws(c: char) -> (r: bool)
    ensures
        r == is_ws_char(c),
{
    c == ' ' || c == '\t' || c == '\r' || c == '\n'
}

/// Whether a character is a decimal digit.
fn is_digit(c: char) -> (r: bool)
    ensures
        r == is_digit_char(c),
{
    let u = c as u32;
    48 <= u && u <= 57
}

/// Whether a character is a letter.
fn is_alpha(c: char) -> (r: bool)
    ensures
        r == is_alpha_char(c),
{
    let u = c as u32;
    (65 <= u && u <= 90) || (97 <= u && u <= 122)
}

/// Whether a character is a letter or a digit.
fn is_alnum(c: char) -> (r: bool)
    ensures
        r == is_alnum_char(c),
{
    is_alpha(c) || is_digit(c)
}

/// Whether a character is an operator.
fn is_op(c: char) -> (r: bool)
    ensures
        r == is_op_char(c),
{
    c == '+' || c == '-' || c == '*' || c == '/'
}

/// Skip whitespace from `i`.
fn skip_ws(s: &str, i: usize) -> (r: usize)
    requires
        i <= s@.len(),
    ensures
        r == skip_ws_s(s@, i as int),
        i <= r <= s@.len(),
    decreases s@.len() - i,
{
    if i < s.unicode_len() {
        let c = s.get_char(i);
        if is_ws(c) {
            return skip_ws(s, i + 1);
        }
    }
    i
}

/// Scan a run of digits from `i`.
fn scan_digits(s: &str, i: usize) -> (r: usize)
    requires
        i <= s@.len(),
    ensures
        r == scan_digits_s(s@, i as int),
        i <= r <= s@.len(),
        forall|k: int| i <= k < r ==> is_digit_char(#[trigger] s@[k]),
    decreases s@.len() - i,
{
    if i < s.unicode_len() {
        let c = s.get_char(i);
        if is_digit(c) {
            return scan_digits(s, i + 1);
        }
    }
    i
}

/// Scan a run of letters and digits from `i`.
fn scan_alnum(s: &str, i: usize) -> (r: usize)
    requires
        i <= s@.len(),
    ensures
        r == scan_alnum_s(s@, i as int),
        i <= r <= s@.len(),
    decreases s@.len() - i,
{
    if i < s.unicode_len() {
        let c = s.get_char(i);
        if is_alnum(c) {
            return scan_alnum(s, i + 1);
        }
    }
    i
}

/// Scan to the next double quote from `i`.
fn scan_quote(s: &str, i: usize) -> (r: usize)
    requires
        i <= s@.len(),
    ensures
        r == scan_quote_s(s@, i as int),
        i <= r <= s@.len(),
    decreases s@.len() - i,
{
    if i < s.unicode_len() {
        let c = s.get_char(i);
        if c != '"' {
            return scan_quote(s, i + 1);
        }
    }
    i
}

/// Read the digit run `s[i..j)` as a 64-bit number, or report that it is
/// too large.
fn digits_value(s: &str, i: usize, j: usize) -> (r: Option<u64>)
    requires
        i <= j <= s@.len(),
        forall|k: int| i <= k < j ==> is_digit_char(#[trigger] s@[k]),
    ensures
        (match r {
            Some(v) => digits_val_s(s@, i as int, j as int) == v as int,
            None => digits_val_s(s@, i as int, j as int) > u64::MAX,
        }),
    decreases j - i,
{
    if i >= j {
        Some(0)
    } else {
        proof {
            lemma_digits_val_nonneg(s@, i as int, j as int - 1);
        }
        match digits_value(s, i, j - 1) {
            None => None,
            Some(v) => {
                let c = s.get_char(j - 1);
                let d = (c as u32 - 48) as u64;
                match v.checked_mul(10) {
                    None => None,
                    Some(v10) => v10.checked_add(d),
                }
            },
        }
    }
}

/// Whether the word `s[i..j)` is a keyword.
fn word_is_keyword(s: &str, i: usize, j: usize) -> (r: bool)
    requires
        i <= j <= s@.len(),
    ensures
        r == is_keyword(s@.subrange(i as int, j as int)),
{
    let ghost w = s@.subrange(i as int, j as int);
    let n = j - i;
    if n == 2 {
        let b = s.get_char(i) == 'i' && s.get_char(i + 1) == 'f';
        proof {
            assert(w[0] == s@[i as int] && w[1] == s@[i as int + 1]);
            if b {
                assert(w =~= kw_if());
            } else {
                assert(w != kw_if());
            }
            assert(w.len() != kw_let().len() && w.len() != kw_thn().len() && w.len()
                != kw_els().len());
        }
        b
    } else if n == 3 {
        let b = s.get_char(i) == 'l' && s.get_char(i + 1) == 'e' && s.get_char(i + 2) == 't';
        proof {
            assert(w[0] == s@[i as int] && w[1] == s@[i as int + 1] && w[2] == s@[i as int + 2]);
            if b {
                assert(w =~= kw_let());
            } else {
                assert(w != kw_let());
            }
            assert(w.len() != kw_if().len() && w.len() != kw_thn().len() && w.len()
                != kw_els().len());
        }
        b
    } else if n == 4 {
        let c0 = s.get_char(i);
        let c1 = s.get_char(i + 1);
        let c2 = s.get_char(i + 2);
        let c3 = s.get_char(i + 3);
        let b1 = c0 == 't' && c1 == 'h' && c2 == 'e' && c3 == 'n';
        let b2 = c0 == 'e' && c1 == 'l' && c2 == 's' && c3 == 'e';
        proof {
            assert(w[0] == s@[i as int] && w[1] == s@[i as int + 1] && w[2] == s@[i as int + 2]
                && w[3] == s@[i as int + 3]);
            if b1 {
                assert(w =~= kw_thn());
            } else {
                assert(w != kw_thn());
            }
            if b2 {
                assert(w =~= kw_els());
            } else {
                assert(w != kw_els());
            }
            assert(w.len() != kw_if().len() && w.len() != kw_let().len());
        }
        b1 || b2
    } else {
        proof {
            assert(w.len() == n);
            assert(kw_let().len() == 3 && kw_if().len() == 2 && kw_thn().len() == 4 && kw_els()
                .len() == 4);
        }
        false
    }
}

/// Whether the assignment keyword stands at `i`.
fn at_kw_let(s: &str, i: usize) -> (r: bool)
    requires
        i <= s@.len(),
    ensures
        r == matches_at(s@, i as int, kw_let()),
{
    if s.unicode_len() - i >= 3 {
        let b = s.get_char(i) == 'l' && s.get_char(i + 1) == 'e' && s.get_char(i + 2) == 't';
        proof {
            let w = s@.subrange(i as int, i as int + 3);
            assert(w[0] == s@[i as int] && w[1] == s@[i as int + 1] && w[2] == s@[i as int + 2]);
            if b {
                assert(w =~= kw_let());
            } else {
                assert(w != kw_let());
            }
        }
        b
    } else {
        false
    }
}

/// Whether the conditional keyword stands at `i`.
fn at_kw_if(s: &str, i: usize) -> (r: bool)
    requires
        i <= s@.len(),
    ensures
        r == matches_at(s@, i as int, kw_if()),
{
    if s.unicode_len() - i >= 2 {
        let b = s.get_char(i) == 'i' && s.get_char(i + 1) == 'f';
        proof {
            let w = s@.subrange(i as int, i as int + 2);
            assert(w[0] == s@[i as int] && w[1] == s@[i as int + 1]);
            if b {
                assert(w =~= kw_if());
            } else {
                assert(w != kw_if());
            }
        }
        b
    } else {
        false
    }
}

/// Whether the keyword of the branch a true predicate selects stands at `i`.
fn at_kw_thn(s: &str, i: usize) -> (r: bool)
    requires
        i <= s@.len(),
    ensures
        r == matches_at(s@, i as int, kw_thn()),
{
    if s.unicode_len() - i >= 4 {
        let b = s.get_char(i) == 't' && s.get_char(i + 1) == 'h' && s.get_char(i + 2) == 'e'
            && s.get_char(i + 3) == 'n';
        proof {
            let w = s@.subrange(i as int, i as int + 4);
            assert(w[0] == s@[i as int] && w[1] == s@[i as int + 1] && w[2] == s@[i as int + 2]
                && w[3] == s@[i as int + 3]);
            if b {
                assert(w =~= kw_thn());
            } else {
                assert(w != kw_thn());
            }
        }
        b
    } else {
        false
    }
}

/// Whether the keyword of the branch a false predicate selects stands at `i`.
fn at_kw_els(s: &str, i: usize) -> (r: bool)
    requires
        i <= s@.len(),
    ensures
        r == matches_at(s@, i as int, kw_els()),
{
    if s.unicode_len() - i >= 4 {
        let b = s.get_char(i) == 'e' && s.get_char(i + 1) == 'l' && s.get_char(i + 2) == 's'
            && s.get_char(i + 3) == 'e';
        proof {
            let w = s@.subrange(i as int, i as int + 4);
            assert(w[0] == s@[i as int] && w[1] == s@[i as int + 1] && w[2] == s@[i as int + 2]
                && w[3] == s@[i as int + 3]);
            if b {
                assert(w =~= kw_els());
            } else {
                assert(w != kw_els());
            }
        }
        b
    } else {
        false
    }
}

/// Parse the identifier at `i`, excluding keywords.
pub fn identifier(s: &str, i: usize) -> (r: Option<(String, usize)>)
    requires
        i <= s@.len(),
    ensures
        (match r {
            Some((w, j)) => ident_s(s@, i as int) == Some((w@, j as int)) && i < j <= s@.len(),
            None => ident_s(s@, i as int) is None,
        }),
{
    if i < s.unicode_len() {
        let c = s.get_char(i);
        if is_alpha(c) {
            let j = scan_alnum(s, i);
            proof {
                lemma_scan_alnum_lb(s@, i as int + 1);
                assert(scan_alnum_s(s@, i as int) == scan_alnum_s(s@, i as int + 1));
                assert(j > i);
            }
            if word_is_keyword(s, i, j) {
                return None;
            }
            let w = s.substring_char(i, j).to_owned();
            return Some((w, j));
        }
    }
    None
}

/// Parse the value at `i`: a whole-number literal, a string literal, an
/// identifier, or a parenthesized expression, tried in that order.
pub fn value(s: &str, i: usize) -> (r: Option<(Expr, usize)>)
    requires
        i <= s@.len(),
    ensures
        (match r {
            Some((e, j)) => p_value_s(s@, i as int) == Some((e@, j as int)) && i < j <= s@.len(),
            None => p_value_s(s@, i as int) is None,
        }),
    decreases s@.len() - i, 0int,
{
    if i >= s.unicode_len() {
        return None;
    }
    let c = s.get_char(i);
    if is_digit(c) {
        let j = scan_digits(s, i);
        proof {
            lemma_scan_digits_lb(s@, i as int + 1);
            assert(scan_digits_s(s@, i as int) == scan_digits_s(s@, i as int + 1));
            assert(j > i);
        }
        match digits_value(s, i, j) {
            Some(v) => Some((Expr::UInt64(v), j)),
            None => None,
        }
    } else if c == '"' {
        let j = scan_quote(s, i + 1);
        if j < s.unicode_len() {
            let w = s.substring_char(i + 1, j).to_owned();
            Some((Expr::Str(w), j + 1))
        } else {
            None
        }
    } else if c == '(' {
        let k = skip_ws(s, i + 1);
        match expression(s, k) {
            None => None,
            Some((e, j)) => {
                let k2 = skip_ws(s, j);
                if k2 < s.unicode_len() && s.get_char(k2) == ')' {
                    Some((e, k2 + 1))
                } else {
                    None
                }
            },
        }
    } else {
        match identifier(s, i) {
            None => None,
            Some((w, j)) => Some((Expr::Iden(w), j)),
        }
    }
}

/// Fold further `op value` pairs into the chain whose operand so far is
/// `first`, ending at `i`.
pub fn operator_chain(s: &str, first: Expr, i: usize) -> (r: Option<(Expr, usize)>)
    requires
        i <= s@.len(),
    ensures
        (match r {
            Some((e, j)) => p_ops_s(s@, first@, i as int) == Some((e@, j as int)) && i <= j
                <= s@.len(),
            None => p_ops_s(s@, first@, i as int) is None,
        }),
    decreases s@.len() - i, 1int,
{
    let j = skip_ws(s, i);
    if j < s.unicode_len() {
        let c = s.get_char(j);
        if is_op(c) {
            let op = if c == '+' {
                BinOp::Add
            } else if c == '-' {
                BinOp::Sub
            } else if c == '*' {
                BinOp::Mul
            } else {
                BinOp::Div
            };
            let k = skip_ws(s, j + 1);
            return match value(s, k) {
                None => None,
                Some((v, j2)) => operator_chain(s, Expr::BinOp(op, Box::new(first), Box::new(v)), j2),
            };
        }
    }
    Some((first, i))
}

/// Collect command arguments after `i`, each preceded by whitespace.
pub fn command_args(s: &str, acc: Vec<Expr>, i: usize) -> (r: (Vec<Expr>, usize))
    requires
        i <= s@.len(),
    ensures
        ({
            let (vs, j) = p_args_s(s@, view_args(acc@), i as int);
            view_args(r.0@) == vs && r.1 == j && i <= r.1 <= s@.len()
        }),
    decreases s@.len() - i, 1int,
{
    let j = skip_ws(s, i);
    if j > i && j < s.unicode_len() {
        match expression(s, j) {
            None => (acc, i),
            Some((a, j2)) => {
                let ghost acc0 = acc@;
                let mut acc2 = acc;
                acc2.push(a);
                proof {
                    lemma_view_args_push(acc0, acc2@.last());
                    assert(acc2@.drop_last() =~= acc0);
                    assert(acc2@ == acc0.push(acc2@.last()));
                }
                command_args(s, acc2, j2)
            },
        }
    } else {
        (acc, i)
    }
}

/// Parse a chain at `i`: a value, then an operator chain or command
/// arguments.
pub fn chain(s: &str, i: usize) -> (r: Option<(Expr, usize)>)
    requires
        i <= s@.len(),
    ensures
        (match r {
            Some((e, j)) => p_chain_s(s@, i as int) == Some((e@, j as int)) && i < j <= s@.len(),
            None => p_chain_s(s@, i as int) is None,
        }),
    decreases s@.len() - i, 2int,
{
    match value(s, i) {
        None => None,
        Some((v, j)) => {
            let j2 = skip_ws(s, j);
            let has_op = j2 < s.unicode_len() && is_op(s.get_char(j2));
            if has_op {
                operator_chain(s, v, j)
            } else {
                match v {
                    Expr::Iden(name) => {
                        let (args, end) = command_args(s, Vec::new(), j);
                        proof {
                            assert(view_args(Seq::<Expr>::empty()) =~= Seq::<ExprV>::empty());
                        }
                        if args.len() > 0 {
                            Some((Expr::Cmd(Cmd { cmd: name, args }), end))
                        } else {
                            Some((Expr::Iden(name), j))
                        }
                    },
                    _ => Some((v, j)),
                }
            }
        },
    }
}

/// Parse an assignment at `i`.
pub fn assign_expr(s: &str, i: usize) -> (r: Option<(Expr, usize)>)
    requires
        i <= s@.len(),
    ensures
        (match r {
            Some((e, j)) => p_assign_s(s@, i as int) == Some((e@, j as int)) && i < j <= s@.len(),
            None => p_assign_s(s@, i as int) is None,
        }),
    decreases s@.len() - i, 2int,
{
    if !at_kw_let(s, i) {
        return None;
    }
    if !(s.unicode_len() - i > 3) {
        return None;
    }
    if !is_ws(s.get_char(i + 3)) {
        return None;
    }
    let k = skip_ws(s, i + 3);
    match identifier(s, k) {
        None => None,
        Some((name, k2)) => {
            let k3 = skip_ws(s, k2);
            if k3 < s.unicode_len() && s.get_char(k3) == '=' {
                let k4 = skip_ws(s, k3 + 1);
                match expression(s, k4) {
                    None => None,
                    Some((e, j2)) => Some((Expr::Assign(name, Box::new(e)), j2)),
                }
            } else {
                None
            }
        },
    }
}

/// Parse a conditional at `i`.
pub fn cond_expr(s: &str, i: usize) -> (r: Option<(Expr, usize)>)
    requires
        i <= s@.len(),
    ensures
        (match r {
            Some((e, j)) => p_cond_s(s@, i as int) == Some((e@, j as int)) && i < j <= s@.len(),
            None => p_cond_s(s@, i as int) is None,
        }),
    decreases s@.len() - i, 2int,
{
    if !at_kw_if(s, i) {
        return None;
    }
    if !(s.unicode_len() - i > 2) {
        return None;
    }
    if !is_ws(s.get_char(i + 2)) {
        return None;
    }
    let k = skip_ws(s, i + 2);
    match expression(s, k) {
        None => None,
        Some((p, j)) => {
            if !(j < s.unicode_len()) || !is_ws(s.get_char(j)) {
                return None;
            }
            let k2 = skip_ws(s, j);
            if !at_kw_thn(s, k2) {
                return None;
            }
            if !(s.unicode_len() - k2 > 4) || !is_ws(s.get_char(k2 + 4)) {
                return None;
            }
            let k3 = skip_ws(s, k2 + 4);
            match expression(s, k3) {
                None => None,
                Some((t, j3)) => {
                    if !(j3 < s.unicode_len()) || !is_ws(s.get_char(j3)) {
                        return None;
                    }
                    let k4 = skip_ws(s, j3);
                    if !at_kw_els(s, k4) {
                        return None;
                    }
                    if !(s.unicode_len() - k4 > 4) || !is_ws(s.get_char(k4 + 4)) {
                        return None;
                    }
                    let k5 = skip_ws(s, k4 + 4);
                    match expression(s, k5) {
                        None => None,
                        Some((e2, j5)) => Some(
                            (Expr::Cond(Box::new(p), Box::new(t), Box::new(e2)), j5),
                        ),
                    }
                },
            }
        },
    }
}

/// Parse an expression at `i`: an assignment, else a conditional, else a
/// chain.
pub fn expression(s: &str, i: usize) -> (r: Option<(Expr, usize)>)
    requires
        i <= s@.len(),
    ensures
        (match r {
            Some((e, j)) => p_expr_s(s@, i as int) == Some((e@, j as int)) && i < j <= s@.len(),
            None => p_expr_s(s@, i as int) is None,
        }),
    decreases s@.len() - i, 3int,
{
    match assign_expr(s, i) {
        Some(r) => Some(r),
        None => match cond_expr(s, i) {
            Some(r) => Some(r),
            None => chain(s, i),
        },
    }
}

/// Parse one input line: the line must match the grammar and be consumed
/// whole, else the result is a parse failure.
pub fn parse(input: &str) -> (r: Result<Expr, Failure>)
    ensures
        (match r {
            Ok(e) => parse_s(input@) == Some(e@),
            Err(f) => f == Failure::ParseFailure && parse_s(input@) is None,
        }),
{
    match expression(input, 0) {
        Some((e, j)) => if j == input.unicode_len() {
            Ok(e)
        } else {
            Err(Failure::ParseFailure)
        },
        None => Err(Failure::ParseFailure),
    }
}

} // verus!
