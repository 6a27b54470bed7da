use vstd::arithmetic::div_mod::lemma_div_nonincreasing;
use vstd::arithmetic::power::{lemma0_pow, lemma1_pow, pow};
use vstd::prelude::*;

use crate::enum_types::{EvalError, Operator, Token};
use crate::infix_to_prefix::{is_digit, is_digit_char, is_op_char};
use crate::scanner::{chars_of, Scanner};

verus! {

/// Whether `x` fits in an `i32`.
pub open spec fn in_i32(x: int) -> bool {
    i32::MIN <= x <= i32::MAX
}

/// The magnitude of `x`.
pub open spec fn iabs(x: int) -> int {
    if x < 0 {
        -x
    } else {
        x
    }
}

/// Truncating integer division: the quotient of the magnitudes, negated when
/// exactly one operand is negative. This is Rust's `/` on machine integers.
pub open spec fn trunc_div(a: int, b: int) -> int {
    if (a < 0) == (b < 0) {
        iabs(a) / iabs(b)
    } else {
        -(iabs(a) / iabs(b))
    }
}

/// What applying an operator to two operands yields: the exact arithmetic
/// result when it fits in an `i32`; `DivisionByZero` when dividing by zero;
/// `MalformedExpression` for a negative exponent; `Overflow` when the exact
/// result does not fit.
pub open spec fn spec_operate(op: Operator, a: int, b: int) -> Result<i32, EvalError> {
    match op {
        Operator::Add => if in_i32(a + b) {
            Ok((a + b) as i32)
        } else {
            Err(EvalError::Overflow)
        },
        Operator::Subtract => if in_i32(a - b) {
            Ok((a - b) as i32)
        } else {
            Err(EvalError::Overflow)
        },
        Operator::Multiply => if in_i32(a * b) {
            Ok((a * b) as i32)
        } else {
            Err(EvalError::Overflow)
        },
        Operator::Divide => if b == 0 {
            Err(EvalError::DivisionByZero)
        } else if in_i32(trunc_div(a, b)) {
            Ok(trunc_div(a, b) as i32)
        } else {
            Err(EvalError::Overflow)
        },
        Operator::Exp => if b < 0 {
            Err(EvalError::MalformedExpression)
        } else if in_i32(pow(a, b as nat)) {
            Ok(pow(a, b as nat) as i32)
        } else {
            Err(EvalError::Overflow)
        },
    }
}

/// The magnitude of a product is the product of the magnitudes.
proof fn lemma_iabs_mul(x: int, y: int)
    ensures
        iabs(x * y) == iabs(x) * iabs(y),
{
    assert(iabs(x * y) == iabs(x) * iabs(y)) by (nonlinear_arith);
}

/// Once some power of a base of magnitude at least two has left the `i32`
/// range, every later power stays out of it: the magnitude at least doubles
/// with each step, so it can never come back down, nor land on a value of
/// magnitude `2^31` or less again.
proof fn lemma_pow_overflow_propagates(a: int, k: nat, e: nat)
    requires
        iabs(a) >= 2,
        k <= e,
        !in_i32(pow(a, k)),
    ensures
        !in_i32(pow(a, e)),
    decreases e - k,
{
    if e > k {
        lemma_pow_overflow_propagates(a, k, (e - 1) as nat);
        let prev = pow(a, (e - 1) as nat);
        assert(pow(a, e) == a * prev) by {
            reveal(pow);
        }
        lemma_iabs_mul(a, prev);
        assert(iabs(prev) >= 0x8000_0000);
        assert(iabs(a) * iabs(prev) >= 2 * 0x8000_0000) by (nonlinear_arith)
            requires
                iabs(a) >= 2,
                iabs(prev) >= 0x8000_0000,
        ;
    }
}

/// A power of minus one is one or minus one, by the exponent's parity.
proof fn lemma_pow_neg1(e: nat)
    ensures
        pow(-1, e) == if e % 2 == 0 {
            1int
        } else {
            -1int
        },
    decreases e,
{
    reveal(pow);
    if e > 0 {
        lemma_pow_neg1((e - 1) as nat);
    }
}

/// Narrows an exact 64-bit result back to `i32`, or reports `Overflow`.
fn narrow_to_i32(s: i64) -> (r: Result<i32, EvalError>)
    ensures
        r == if in_i32(s as int) {
            Ok::<i32, EvalError>(s as i32)
        } else {
            Err::<i32, EvalError>(EvalError::Overflow)
        },
{
    if i32::MIN as i64 <= s && s <= i32::MAX as i64 {
        Ok(s as i32)
    } else {
        Err(EvalError::Overflow)
    }
}

/// The magnitude of an `i32`, which always fits in a `u32`.
fn abs_u32(a: i32) -> (r: u32)
    ensures
        r as int == iabs(a as int),
{
    if a >= 0 {
        a as u32
    } else {
        (-(a as i64)) as u32
    }
}

/// Truncating division with the divisor known to be nonzero; `Overflow` can
/// only arise from dividing the smallest `i32` by minus one.
fn div_trunc(a: i32, b: i32) -> (r: Result<i32, EvalError>)
    requires
        b != 0,
    ensures
        r == if in_i32(trunc_div(a as int, b as int)) {
            Ok::<i32, EvalError>(trunc_div(a as int, b as int) as i32)
        } else {
            Err::<i32, EvalError>(EvalError::Overflow)
        },
{
    let negative = (a < 0) != (b < 0);
    let abs_a = abs_u32(a);
    let abs_b = abs_u32(b);
    let q = abs_a / abs_b;
    proof {
        lemma_div_nonincreasing(abs_a as int, abs_b as int);
    }
    if negative {
        Ok((-(q as i64)) as i32)
    } else {
        if q > i32::MAX as u32 {
            Err(EvalError::Overflow)
        } else {
            Ok(q as i32)
        }
    }
}

/// The base raised to a nonnegative exponent, by repeated multiplication;
/// `Overflow` exactly when the mathematical power does not fit in an `i32`.
/// Bases of magnitude below two are settled directly, so the loop only ever
/// runs while the accumulated power still fits.
fn pow_i32(a: i32, b: u32) -> (r: Result<i32, EvalError>)
    ensures
        r == if in_i32(pow(a as int, b as nat)) {
            Ok::<i32, EvalError>(pow(a as int, b as nat) as i32)
        } else {
            Err::<i32, EvalError>(EvalError::Overflow)
        },
{
    if a == 0 {
        if b == 0 {
            proof {
                reveal(pow);
            }
            Ok(1)
        } else {
            proof {
                lemma0_pow(b as nat);
            }
            Ok(0)
        }
    } else if a == 1 {
        proof {
            lemma1_pow(b as nat);
        }
        Ok(1)
    } else if a == -1 {
        proof {
            lemma_pow_neg1(b as nat);
        }
        if b % 2 == 0 {
            Ok(1)
        } else {
            Ok(-1)
        }
    } else {
        let mut acc: i32 = 1;
        let mut i: u32 = 0;
        proof {
            reveal(pow);
        }
        while i < b
            invariant
                iabs(a as int) >= 2,
                i <= b,
                acc as int == pow(a as int, i as nat),
            decreases b - i,
        {
            proof {
                assert((acc as int) * (a as int) <= 0x4000_0000_0000_0000 && (acc as int) * (
                a as int) >= -0x4000_0000_0000_0000) by (nonlinear_arith)
                    requires
                        -0x8000_0000 <= acc as int <= 0x7fff_ffff,
                        -0x8000_0000 <= a as int <= 0x7fff_ffff,
                ;
            }
            let p: i64 = (acc as i64) * (a as i64);
            proof {
                assert(pow(a as int, (i + 1) as nat) == a as int * pow(a as int, i as nat)) by {
                    reveal(pow);
                }
            }
            if p > i32::MAX as i64 || p < i32::MIN as i64 {
                proof {
                    lemma_pow_overflow_propagates(a as int, (i + 1) as nat, b as nat);
                }
                return Err(EvalError::Overflow);
            }
            acc = p as i32;
            i = i + 1;
        }
        Ok(acc)
    }
}

/// Applies an operator to two operand values, exactly as `spec_operate`
/// describes.
pub fn operate(op: Operator, a: i32, b: i32) -> (r: Result<i32, EvalError>)
    ensures
        r == spec_operate(op, a as int, b as int),
{
    match op {
        Operator::Add => narrow_to_i32(a as i64 + b as i64),
        Operator::Subtract => narrow_to_i32(a as i64 - b as i64),
        Operator::Multiply => {
            proof {
                assert((a as int) * (b as int) <= 0x4000_0000_0000_0000 && (a as int) * (b as int)
                    >= -0x4000_0000_0000_0000) by (nonlinear_arith)
                    requires
                        -0x8000_0000 <= a as int <= 0x7fff_ffff,
                        -0x8000_0000 <= b as int <= 0x7fff_ffff,
                ;
            }
            narrow_to_i32((a as i64) * (b as i64))
        },
        Operator::Divide => {
            if b == 0 {
                Err(EvalError::DivisionByZero)
            } else {
                div_trunc(a, b)
            }
        },
        Operator::Exp => {
            if b < 0 {
                Err(EvalError::MalformedExpression)
            } else {
                pow_i32(a, b as u32)
            }
        },
    }
}

/// The numeric value a digit character denotes.
pub open spec fn digit_val(c: char) -> int {
    c as u32 - '0' as u32
}

/// The operator a single operator character denotes.
pub open spec fn op_of(c: char) -> Operator {
    if c == '+' {
        Operator::Add
    } else if c == '-' {
        Operator::Subtract
    } else if c == '*' {
        Operator::Multiply
    } else if c == '/' {
        Operator::Divide
    } else {
        Operator::Exp
    }
}

/// One left-to-right pass of the tokenizer. `acc` is the value of the digit
/// run read so far. An operator character becomes a token at once; a digit
/// joins `acc`, and the literal is emitted as soon as the character after it
/// is absent or not a digit. A run whose value leaves the `i32` range stops
/// the scan with `Overflow`; a character outside the expression alphabet
/// stops it with `UnexpectedCharacter`.
pub open spec fn tokenize_scan(input: Seq<char>, acc: int, tokens: Seq<Token>) -> Result<
    Seq<Token>,
    EvalError,
>
    decreases input.len(),
{
    if input.len() == 0 {
        Ok(tokens)
    } else {
        let c = input.first();
        let rest = input.drop_first();
        if c == ' ' {
            tokenize_scan(rest, acc, tokens)
        } else if is_op_char(c) {
            tokenize_scan(rest, acc, tokens.push(Token::Op(op_of(c))))
        } else if is_digit_char(c) {
            let value = acc * 10 + digit_val(c);
            if value > i32::MAX {
                Err(EvalError::Overflow)
            } else if rest.len() == 0 || !is_digit_char(rest.first()) {
                tokenize_scan(rest, 0, tokens.push(Token::Digit(value as i32)))
            } else {
                tokenize_scan(rest, value, tokens)
            }
        } else {
            Err(EvalError::UnexpectedCharacter)
        }
    }
}

/// What `tokenize` returns for a given character sequence.
pub open spec fn spec_tokenize(input: Seq<char>) -> Result<Seq<Token>, EvalError> {
    tokenize_scan(input, 0, Seq::empty())
}

/// Whether `c` is an ASCII digit.
pub fn is_numeric(c: char) -> (r: bool)
    ensures
        r == is_digit_char(c),
{
    is_digit(c)
}

/// Turns a prefix-notation string into a token sequence, scanning left to
/// right. Consecutive digits are merged into one literal using the scanner's
/// one-position lookahead: a literal ends exactly where the lookahead fails
/// or shows a character that is not a digit. Returns exactly what
/// `spec_tokenize` says.
pub fn tokenize(source: &str) -> (r: Result<Vec<Token>, EvalError>)
    ensures
        match r {
            Ok(t) => spec_tokenize(source@) == Ok::<Seq<Token>, EvalError>(t@),
            Err(e) => spec_tokenize(source@) == Err::<Seq<Token>, EvalError>(e),
        },
{
    let ghost input: Seq<char> = source@;
    let mut tokens: Vec<Token> = Vec::new();
    let mut sc = Scanner::new(chars_of(source));
    let mut num_literal: u32 = 0;
    proof {
        assert(tokens@ =~= Seq::<Token>::empty());
    }
    while sc.len() > 0
        invariant
            input == source@,
            num_literal <= i32::MAX as u32,
            tokenize_scan(input, 0, Seq::empty()) == tokenize_scan(
                sc@,
                num_literal as int,
                tokens@,
            ),
        decreases sc@.len(),
    {
        let ghost pre = sc@;
        let p = sc.peek();
        let c = match sc.advance() {
            Ok(c) => c,
            Err(e) => {
                return Err(e);
            },
        };
        if c == ' ' {
        } else if c == '+' {
            tokens.push(Token::Op(Operator::Add));
        } else if c == '-' {
            tokens.push(Token::Op(Operator::Subtract));
        } else if c == '*' {
            tokens.push(Token::Op(Operator::Multiply));
        } else if c == '/' {
            tokens.push(Token::Op(Operator::Divide));
        } else if c == '^' {
            tokens.push(Token::Op(Operator::Exp));
        } else if is_numeric(c) {
            let d: u32 = c as u32 - '0' as u32;
            let value: u64 = num_literal as u64 * 10 + d as u64;
            if value > i32::MAX as u64 {
                proof {
                    assert(tokenize_scan(pre, num_literal as int, tokens@) == Err::<
                        Seq<Token>,
                        EvalError,
                    >(EvalError::Overflow));
                }
                return Err(EvalError::Overflow);
            }
            let emit = match p {
                Ok(next) => !is_numeric(next),
                Err(_) => true,
            };
            if emit {
                tokens.push(Token::Digit(value as i32));
                num_literal = 0;
            } else {
                num_literal = value as u32;
            }
        } else {
            proof {
                assert(tokenize_scan(pre, num_literal as int, tokens@) == Err::<
                    Seq<Token>,
                    EvalError,
                >(EvalError::UnexpectedCharacter));
            }
            return Err(EvalError::UnexpectedCharacter);
        }
    }
    Ok(tokens)
}

/// The index of the rightmost operator token, if there is one.
pub open spec fn find_last_op(s: Seq<Token>) -> Option<int>
    decreases s.len(),
{
    if s.len() == 0 {
        None
    } else if s.last() is Op {
        Some(s.len() - 1)
    } else {
        find_last_op(s.drop_last())
    }
}

/// Reduces a prefix token sequence to one value. While more than one token
/// remains, the rightmost operator is removed together with the two tokens
/// after it, and the literal `spec_operate` yields for them takes its place;
/// reducing the rightmost operator first replays the infix
/// expression's left-to-right evaluation order. An empty sequence yields 0; a
/// single literal yields itself; a sequence in which an operator lacks its
/// two trailing literal operands, or holds no operator at all while several
/// tokens remain, is `MalformedExpression`.
pub open spec fn spec_solve(s: Seq<Token>) -> Result<i32, EvalError>
    decreases s.len(),
{
    if s.len() == 0 {
        Ok(0)
    } else if s.len() == 1 {
        match s[0] {
            Token::Digit(d) => Ok(d),
            Token::Op(_) => Err(EvalError::MalformedExpression),
        }
    } else {
        match find_last_op(s) {
            None => Err(EvalError::MalformedExpression),
            Some(i) => if 0 <= i && i + 2 < s.len() {
                match (s[i], s[i + 1], s[i + 2]) {
                    (Token::Op(op), Token::Digit(x), Token::Digit(y)) => match spec_operate(
                        op,
                        x as int,
                        y as int,
                    ) {
                        Ok(v) => spec_solve(
                            s.subrange(0, i).push(Token::Digit(v)) + s.subrange(
                                i + 3,
                                s.len() as int,
                            ),
                        ),
                        Err(e) => Err(e),
                    },
                    _ => Err(EvalError::MalformedExpression),
                }
            } else {
                Err(EvalError::MalformedExpression)
            },
        }
    }
}

/// A token sequence destined for reduction to a single value.
#[derive(Debug)]
pub struct Expr(pub Vec<Token>);

impl Expr {
    /// Reduces the held token sequence exactly as `spec_solve` describes:
    /// rightmost operator first, its two following tokens as operands, the
    /// result spliced back in at the operator's place.
    pub fn solve(&self) -> (r: Result<i32, EvalError>)
        ensures
            r == spec_solve(self.0@),
    {
        let mut tokens: Vec<Token> = Vec::new();
        let mut k: usize = 0;
        while k < self.0.len()
            invariant
                k <= self.0@.len(),
                tokens@ == self.0@.take(k as int),
            decreases self.0@.len() - k,
        {
            tokens.push(self.0[k]);
            proof {
                assert(self.0@.take(k as int).push(self.0@[k as int]) =~= self.0@.take(
                    k as int + 1,
                ));
            }
            k = k + 1;
        }
        proof {
            assert(self.0@.take(self.0@.len() as int) =~= self.0@);
        }
        while tokens.len() > 1
            invariant
                spec_solve(tokens@) == spec_solve(self.0@),
            decreases tokens@.len(),
        {
            let ghost s = tokens@;
            let n = tokens.len();
            let mut last_op_index: usize = 0;
            let mut found: bool = false;
            let mut idx: usize = 0;
            while idx < n
                invariant
                    n == tokens@.len(),
                    idx <= n,
                    match find_last_op(tokens@.take(idx as int)) {
                        Some(i) => found && last_op_index == i,
                        None => !found,
                    },
                    found ==> last_op_index < idx && tokens@[last_op_index as int] is Op,
                    found ==> forall|j: int|
                        last_op_index < j < idx ==> (#[trigger] tokens@[j]) is Digit,
                    !found ==> forall|j: int| 0 <= j < idx ==> (#[trigger] tokens@[j]) is Digit,
                decreases n - idx,
            {
                proof {
                    assert(tokens@.take(idx as int + 1).drop_last() =~= tokens@.take(idx as int));
                    assert(tokens@.take(idx as int + 1).last() == tokens@[idx as int]);
                }
                let t = tokens[idx];
                if let Token::Op(_) = t {
                    last_op_index = idx;
                    found = true;
                }
                idx = idx + 1;
            }
            proof {
                assert(tokens@.take(n as int) =~= tokens@);
            }
            if !found {
                return Err(EvalError::MalformedExpression);
            }
            if last_op_index >= tokens.len() - 2 {
                return Err(EvalError::MalformedExpression);
            }
            let ghost i = last_op_index as int;
            let op_tok = tokens.remove(last_op_index);
            let operand1 = tokens.remove(last_op_index);
            let operand2 = tokens.remove(last_op_index);
            proof {
                assert(op_tok == s[i]);
                assert(operand1 == s[i + 1]);
                assert(operand2 == s[i + 2]);
            }
            match (op_tok, operand1, operand2) {
                (Token::Op(op), Token::Digit(x), Token::Digit(y)) => {
                    let v = match operate(op, x, y) {
                        Ok(v) => v,
                        Err(e) => {
                            return Err(e);
                        },
                    };
                    tokens.insert(last_op_index, Token::Digit(v));
                    proof {
                        assert(tokens@ =~= s.subrange(0, i).push(Token::Digit(v)) + s.subrange(
                            i + 3,
                            s.len() as int,
                        ));
                    }
                },
                _ => {
                    proof {
                        assert(false);
                    }
                },
            }
        }
        if tokens.len() == 1 {
            match tokens[0] {
                Token::Digit(d) => Ok(d),
                Token::Op(_) => Err(EvalError::MalformedExpression),
            }
        } else {
            Ok(0)
        }
    }
}

/// What the whole pipeline returns for an input string: the infix text is
/// rewritten to prefix form, tokenized, and reduced to one value, and the
/// first failure of any stage is the result.
pub open spec fn spec_calc(input: Seq<char>) -> Result<i32, EvalError> {
    match crate::infix_to_prefix::spec_convert(input) {
        Err(e) => Err(e),
        Ok(prefix) => match spec_tokenize(prefix) {
            Err(e) => Err(e),
            Ok(tokens) => spec_solve(tokens),
        },
    }
}

/// Evaluates an infix arithmetic expression end to end, exactly as
/// `spec_calc` describes.
pub fn calc(source: &str) -> (r: Result<i32, EvalError>)
    ensures
        r == spec_calc(source@),
{
    let prefix_expr = match crate::infix_to_prefix::convert(source) {
        Ok(p) => p,
        Err(e) => {
            return Err(e);
        },
    };
    let tokens = match tokenize(prefix_expr.as_str()) {
        Ok(t) => t,
        Err(e) => {
            return Err(e);
        },
    };
    Expr(tokens).solve()
}

} // verus!
