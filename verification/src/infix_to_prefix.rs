use vstd::prelude::*;

use crate::enum_types::EvalError;
use crate::scanner::{chars_of, string_from_chars, Scanner};

verus! {

/// The three character classes the converter distinguishes.
#[derive(Debug, Copy, Clone, PartialEq, Eq, Structural)]
pub enum Part {
    Operator,
    Number,
    Whitespace,
}

/// Whether `c` is one of the five operator characters.
pub open spec fn is_op_char(c: char) -> bool {
    c == '+' || c == '-' || c == '*' || c == '/' || c == '^'
}

/// Whether `c` is a decimal digit.
pub open spec fn is_digit_char(c: char) -> bool {
    '0' as u32 <= c as u32 && c as u32 <= '9' as u32
}

/// Whether `c` may appear in an infix or prefix expression at all.
pub open spec fn is_expr_char(c: char) -> bool {
    c == ' ' || is_op_char(c) || is_digit_char(c)
}

/// The binding strength the converter assigns to an operator character:
/// additive operators bind at 1, multiplicative at 2, and anything else,
/// notably `^`, at 0.
pub open spec fn spec_precedence(c: char) -> u32 {
    if c == '+' || c == '-' {
        1
    } else if c == '*' || c == '/' {
        2
    } else {
        0
    }
}

/// One right-to-left pass of the converter. `input` is what is still to be
/// scanned, `stack` the pending operators (top last) and `out` the output
/// accumulated so far, built in reverse. Digits go straight to the output;
/// an operator first marks the output with a space, then either joins the
/// stack or, when it binds less tightly than the stack's top, sends that top
/// to the output before taking its place.
pub open spec fn convert_scan(input: Seq<char>, stack: Seq<char>, out: Seq<char>) -> Result<
    (Seq<char>, Seq<char>),
    EvalError,
>
    decreases input.len(),
{
    if input.len() == 0 {
        Ok((stack, out))
    } else {
        let c = input.last();
        let rest = input.drop_last();
        if c == ' ' {
            convert_scan(rest, stack, out)
        } else if is_op_char(c) {
            if stack.len() == 0 {
                convert_scan(rest, stack.push(c), out.push(' '))
            } else if spec_precedence(c) < spec_precedence(stack.last()) {
                convert_scan(
                    rest,
                    stack.drop_last().push(c),
                    out.push(' ').push(stack.last()).push(' '),
                )
            } else {
                convert_scan(rest, stack.push(c), out.push(' '))
            }
        } else if is_digit_char(c) {
            convert_scan(rest, stack, out.push(c))
        } else {
            Err(EvalError::UnexpectedCharacter)
        }
    }
}

/// Empties the remaining operator stack into the output, top first, with a
/// space after every operator but the last.
pub open spec fn drain_stack(stack: Seq<char>, out: Seq<char>) -> Seq<char>
    decreases stack.len(),
{
    if stack.len() == 0 {
        out
    } else if stack.len() == 1 {
        out.push(stack.last())
    } else {
        drain_stack(stack.drop_last(), out.push(stack.last()).push(' '))
    }
}

/// What `convert` returns: the scan's output, stack drained, read in reverse
/// (the whole pass ran back to front), or the first error the scan met.
pub open spec fn spec_convert(input: Seq<char>) -> Result<Seq<char>, EvalError> {
    match convert_scan(input, Seq::empty(), Seq::empty()) {
        Ok((stack, out)) => Ok(drain_stack(stack, out).reverse()),
        Err(e) => Err(e),
    }
}

/// Classifies a character: space, operator character, or anything else,
/// which the converter then takes for part of a number.
pub fn part(c: char) -> (r: Part)
    ensures
        (r == Part::Whitespace) <==> (c == ' '),
        (r == Part::Operator) <==> is_op_char(c),
        (r == Part::Number) <==> (c != ' ' && !is_op_char(c)),
{
    if c == ' ' {
        Part::Whitespace
    } else if c == '+' || c == '-' || c == '*' || c == '/' || c == '^' {
        Part::Operator
    } else {
        Part::Number
    }
}

/// The converter's precedence table.
pub fn precedence(c: char) -> (r: u32)
    ensures
        r == spec_precedence(c),
{
    match c {
        '+' | '-' => 1,
        '*' | '/' => 2,
        _ => 0,
    }
}

/// Whether `c` is a decimal digit.
pub fn is_digit(c: char) -> (r: bool)
    ensures
        r == is_digit_char(c),
{
    let u = c as u32;
    '0' as u32 <= u && u <= '9' as u32
}

/// Rewrites an infix expression into prefix notation. The input is scanned
/// from its last character to its first; digits flow to the output, pending
/// operators wait on a precedence stack and an incoming operator that binds
/// less tightly than the stack's top pushes that top out. The accumulated
/// buffer, built backwards, is reversed at the end.
///
/// Returns exactly what `spec_convert` says: the prefix string on success,
/// and `UnexpectedCharacter` if and only if some character of the input is
/// neither a digit, an operator nor a space.
pub fn convert(infix_expression: &str) -> (r: Result<String, EvalError>)
    ensures
        match r {
            Ok(p) => spec_convert(infix_expression@) == Ok::<Seq<char>, EvalError>(p@),
            Err(e) => spec_convert(infix_expression@) == Err::<Seq<char>, EvalError>(e),
        },
        r is Ok <==> forall|i: int| 0 <= i < infix_expression@.len() ==> is_expr_char(
            #[trigger] infix_expression@[i],
        ),
{
    let ghost input: Seq<char> = infix_expression@;
    let mut sc = Scanner::new(chars_of(infix_expression));
    let mut stack: Vec<char> = Vec::new();
    let mut processed: Vec<char> = Vec::new();
    proof {
        assert(stack@ =~= Seq::<char>::empty());
        assert(processed@ =~= Seq::<char>::empty());
    }
    while sc.len() > 0
        invariant
            input == infix_expression@,
            convert_scan(input, Seq::empty(), Seq::empty()) == convert_scan(
                sc@,
                stack@,
                processed@,
            ),
            forall|i: int|
                0 <= i < input.len() - sc@.len() ==> is_expr_char(
                    #[trigger] input[input.len() - 1 - i],
                ),
            sc@.len() <= input.len(),
            input.subrange(0, sc@.len() as int) == sc@,
        decreases sc@.len(),
    {
        let ghost pre = sc@;
        let c = match sc.advance_from_back() {
            Ok(c) => c,
            Err(e) => {
                return Err(e);
            },
        };
        proof {
            assert(pre.drop_last() =~= input.subrange(0, sc@.len() as int));
        }
        match part(c) {
            Part::Whitespace => {},
            Part::Number => {
                if is_digit(c) {
                    processed.push(c);
                } else {
                    proof {
                        assert(convert_scan(pre, stack@, processed@) == Err::<
                            (Seq<char>, Seq<char>),
                            EvalError,
                        >(EvalError::UnexpectedCharacter));
                        assert(pre[pre.len() - 1] == input[pre.len() - 1]);
                        assert(!is_expr_char(input[pre.len() - 1]));
                    }
                    return Err(EvalError::UnexpectedCharacter);
                }
            },
            Part::Operator => {
                processed.push(' ');
                if stack.len() == 0 {
                    stack.push(c);
                } else {
                    let stack_top = stack[stack.len() - 1];
                    if precedence(c) < precedence(stack_top) {
                        let popped = stack.pop().unwrap();
                        processed.push(popped);
                        processed.push(' ');
                        stack.push(c);
                    } else {
                        stack.push(c);
                    }
                }
            },
        }
    }
    let ghost scanned_stack = stack@;
    let ghost scanned_out = processed@;
    proof {
        assert(sc@ =~= Seq::<char>::empty());
        assert(convert_scan(input, Seq::empty(), Seq::empty()) == Ok::<_, EvalError>(
            (scanned_stack, scanned_out),
        ));
        assert forall|i: int| 0 <= i < input.len() implies is_expr_char(#[trigger] input[i]) by {
            assert(is_expr_char(input[input.len() - 1 - (input.len() - 1 - i)]));
        }
    }
    while stack.len() > 1
        invariant
            drain_stack(scanned_stack, scanned_out) == drain_stack(stack@, processed@),
        decreases stack@.len(),
    {
        let popped = stack.pop().unwrap();
        processed.push(popped);
        processed.push(' ');
    }
    if stack.len() == 1 {
        let popped = stack.pop().unwrap();
        processed.push(popped);
        proof {
            assert(drain_stack(scanned_stack, scanned_out) =~= processed@);
        }
    }
    proof {
        assert(drain_stack(scanned_stack, scanned_out) =~= processed@);
    }
    let mut reversed: Vec<char> = Vec::new();
    let mut i: usize = processed.len();
    while i > 0
        invariant
            i <= processed.len(),
            reversed@.len() == processed@.len() - i,
            forall|k: int|
                0 <= k < reversed@.len() ==> reversed@[k] == processed@[processed@.len() - 1 - k],
        decreases i,
    {
        i = i - 1;
        let c = processed[i];
        reversed.push(c);
    }
    proof {
        assert(reversed@ =~= processed@.reverse());
    }
    Ok(string_from_chars(&reversed))
}

} // verus!
