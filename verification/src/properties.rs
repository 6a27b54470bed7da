use vstd::arithmetic::div_mod::lemma_fundamental_div_mod;
use vstd::prelude::*;

use crate::enum_types::{EvalError, Operator, Token};
use crate::infix_to_prefix::{
    convert_scan, drain_stack, is_digit_char, is_op_char, spec_convert,
};
use crate::solver::{
    digit_val, find_last_op, op_of, spec_calc, spec_operate, spec_solve, spec_tokenize,
    tokenize_scan,
};

verus! {

/// The character that renders a single decimal digit.
pub open spec fn digit_char(d: int) -> char {
    if d == 0 {
        '0'
    } else if d == 1 {
        '1'
    } else if d == 2 {
        '2'
    } else if d == 3 {
        '3'
    } else if d == 4 {
        '4'
    } else if d == 5 {
        '5'
    } else if d == 6 {
        '6'
    } else if d == 7 {
        '7'
    } else if d == 8 {
        '8'
    } else {
        '9'
    }
}

/// The character that renders an operator.
pub open spec fn char_of_op(op: Operator) -> char {
    match op {
        Operator::Add => '+',
        Operator::Subtract => '-',
        Operator::Multiply => '*',
        Operator::Divide => '/',
        Operator::Exp => '^',
    }
}

/// The decimal rendering of a nonnegative number, most significant digit
/// first.
pub open spec fn dec_digits(n: int) -> Seq<char>
    recommends
        n >= 0,
    decreases n,
{
    if n <= 9 {
        seq![digit_char(n)]
    } else {
        dec_digits(n / 10).push(digit_char(n % 10))
    }
}

/// Whether every character of `s` is a digit.
pub open spec fn all_digits(s: Seq<char>) -> bool {
    forall|i: int| 0 <= i < s.len() ==> is_digit_char(#[trigger] s[i])
}

/// The value of the digit run `d` read after digits already worth `acc`.
pub open spec fn run_val(acc: int, d: Seq<char>) -> int
    decreases d.len(),
{
    if d.len() == 0 {
        acc
    } else {
        run_val(acc * 10 + digit_val(d.first()), d.drop_first())
    }
}

proof fn lemma_all_digits_drop_first(d: Seq<char>)
    requires
        d.len() > 0,
        all_digits(d),
    ensures
        all_digits(d.drop_first()),
{
    assert forall|i: int| 0 <= i < d.drop_first().len() implies is_digit_char(
        #[trigger] d.drop_first()[i],
    ) by {
        assert(d.drop_first()[i] == d[i + 1]);
    }
}

proof fn lemma_all_digits_drop_last(d: Seq<char>)
    requires
        d.len() > 0,
        all_digits(d),
    ensures
        all_digits(d.drop_last()),
{
    assert forall|i: int| 0 <= i < d.drop_last().len() implies is_digit_char(
        #[trigger] d.drop_last()[i],
    ) by {
        assert(d.drop_last()[i] == d[i]);
    }
}

/// Reading more digits never shrinks the accumulated value.
proof fn lemma_run_val_lower_bound(acc: int, d: Seq<char>)
    requires
        acc >= 0,
        all_digits(d),
    ensures
        run_val(acc, d) >= acc,
    decreases d.len(),
{
    if d.len() > 0 {
        assert(is_digit_char(d[0]));
        lemma_all_digits_drop_first(d);
        lemma_run_val_lower_bound(acc * 10 + digit_val(d.first()), d.drop_first());
    }
}

/// Appending one digit multiplies the run's value by ten and adds it.
proof fn lemma_run_val_push(acc: int, d: Seq<char>, c: char)
    ensures
        run_val(acc, d.push(c)) == run_val(acc, d) * 10 + digit_val(c),
    decreases d.len(),
{
    if d.len() == 0 {
        assert(d.push(c).first() == c);
        assert(d.push(c).drop_first() =~= Seq::<char>::empty());
        assert(run_val(acc, d.push(c)) == run_val(
            acc * 10 + digit_val(c),
            Seq::<char>::empty(),
        ));
        assert(run_val(acc * 10 + digit_val(c), Seq::<char>::empty()) == acc * 10 + digit_val(c));
        assert(run_val(acc, d) == acc);
    } else {
        assert(d.push(c).first() == d.first());
        assert(d.push(c).drop_first() =~= d.drop_first().push(c));
        lemma_run_val_push(acc * 10 + digit_val(d.first()), d.drop_first(), c);
    }
}

/// The decimal rendering of `n` is a nonempty digit run that reads back as
/// `n` exactly.
pub proof fn lemma_dec_digits(n: int)
    requires
        n >= 0,
    ensures
        dec_digits(n).len() >= 1,
        all_digits(dec_digits(n)),
        run_val(0, dec_digits(n)) == n,
    decreases n,
{
    if n <= 9 {
        assert(is_digit_char(digit_char(n)));
        assert(dec_digits(n) =~= seq![digit_char(n)]);
        let s = seq![digit_char(n)];
        assert(s.drop_first() =~= Seq::<char>::empty());
        assert(run_val(0, s) == run_val(digit_val(digit_char(n)), Seq::<char>::empty()));
        assert(run_val(digit_val(digit_char(n)), Seq::<char>::empty()) == digit_val(
            digit_char(n),
        ));
        assert(digit_val(digit_char(n)) == n);
    } else {
        lemma_dec_digits(n / 10);
        lemma_run_val_push(0, dec_digits(n / 10), digit_char(n % 10));
        lemma_fundamental_div_mod(n, 10);
        assert(0 <= n % 10 < 10);
        assert(digit_val(digit_char(n % 10)) == n % 10);
        assert forall|i: int| 0 <= i < dec_digits(n).len() implies is_digit_char(
            #[trigger] dec_digits(n)[i],
        ) by {
            if i < dec_digits(n / 10).len() {
                assert(dec_digits(n)[i] == dec_digits(n / 10)[i]);
            } else {
                assert(dec_digits(n)[i] == digit_char(n % 10));
            }
        }
    }
}

/// Digits at the tail of the remaining input flow one by one into the
/// output, reversed, touching neither the stack nor anything before them.
proof fn lemma_convert_scan_digits(rest: Seq<char>, d: Seq<char>, stack: Seq<char>, out: Seq<char>)
    requires
        all_digits(d),
    ensures
        convert_scan(rest + d, stack, out) == convert_scan(rest, stack, out + d.reverse()),
    decreases d.len(),
{
    if d.len() == 0 {
        assert(rest + d =~= rest);
        assert(out + d.reverse() =~= out);
    } else {
        let c = d.last();
        assert(is_digit_char(d[d.len() - 1]));
        assert((rest + d).last() == c);
        assert((rest + d).drop_last() =~= rest + d.drop_last());
        lemma_all_digits_drop_last(d);
        lemma_convert_scan_digits(rest, d.drop_last(), stack, out.push(c));
        assert(out.push(c) + d.drop_last().reverse() =~= out + d.reverse());
    }
}

/// Converting `a OP b` yields the operator followed at once by the first
/// digit run, a space, and the second digit run.
proof fn lemma_convert_binary(da: Seq<char>, opc: char, db: Seq<char>)
    requires
        all_digits(da),
        da.len() >= 1,
        all_digits(db),
        db.len() >= 1,
        is_op_char(opc),
    ensures
        spec_convert(da + seq![' ', opc, ' '] + db) == Ok::<Seq<char>, EvalError>(
            seq![opc] + da + seq![' '] + db,
        ),
{
    let input = da + seq![' ', opc, ' '] + db;
    let mid = da + seq![' ', opc, ' '];
    let empty = Seq::<char>::empty();
    lemma_convert_scan_digits(mid, db, empty, empty);
    assert(empty + db.reverse() =~= db.reverse());
    assert(convert_scan(input, empty, empty) == convert_scan(mid, empty, db.reverse()));
    let m2 = da + seq![' ', opc];
    assert(mid.last() == ' ');
    assert(mid.drop_last() =~= m2);
    assert(convert_scan(mid, empty, db.reverse()) == convert_scan(m2, empty, db.reverse()));
    let m3 = da + seq![' '];
    assert(m2.last() == opc);
    assert(m2.drop_last() =~= m3);
    assert(convert_scan(m2, empty, db.reverse()) == convert_scan(
        m3,
        empty.push(opc),
        db.reverse().push(' '),
    ));
    assert(m3.last() == ' ');
    assert(m3.drop_last() =~= da);
    assert(convert_scan(m3, empty.push(opc), db.reverse().push(' ')) == convert_scan(
        da,
        empty.push(opc),
        db.reverse().push(' '),
    ));
    lemma_convert_scan_digits(empty, da, empty.push(opc), db.reverse().push(' '));
    assert(empty + da =~= da);
    let out_final = db.reverse().push(' ') + da.reverse();
    assert(convert_scan(da, empty.push(opc), db.reverse().push(' ')) == convert_scan(
        empty,
        empty.push(opc),
        out_final,
    ));
    assert(convert_scan(empty, empty.push(opc), out_final) == Ok::<
        (Seq<char>, Seq<char>),
        EvalError,
    >((empty.push(opc), out_final)));
    assert(drain_stack(empty.push(opc), out_final) == out_final.push(opc));
    assert(out_final.push(opc).reverse() =~= seq![opc] + da + seq![' '] + db) by {
        let lhs = out_final.push(opc).reverse();
        let rhs = seq![opc] + da + seq![' '] + db;
        assert(lhs.len() == rhs.len());
        assert forall|i: int| 0 <= i < lhs.len() implies lhs[i] == rhs[i] by {
            let m = out_final.push(opc);
            assert(lhs[i] == m[m.len() - 1 - i]);
            if i == 0 {
            } else if i <= da.len() {
                assert(m[m.len() - 1 - i] == da.reverse()[da.len() as int - i]);
                assert(da.reverse()[da.len() as int - i] == da[i - 1]);
                assert(rhs[i] == da[i - 1]);
            } else if i == da.len() + 1 {
                assert(m[m.len() - 1 - i] == ' ');
            } else {
                let j = i - da.len() - 2;
                assert(m[m.len() - 1 - i] == db.reverse()[db.len() - 1 - j]);
                assert(db.reverse()[db.len() - 1 - j] == db[j]);
                assert(rhs[i] == db[j]);
            }
        }
    }
}

/// A maximal digit run at the front of the input becomes exactly one literal
/// token, worth the run's value, provided that value fits in an `i32`.
proof fn lemma_tokenize_digit_run(d: Seq<char>, rest: Seq<char>, acc: int, tokens: Seq<Token>)
    requires
        all_digits(d),
        d.len() >= 1,
        0 <= acc,
        run_val(acc, d) <= i32::MAX,
        rest.len() == 0 || !is_digit_char(rest.first()),
    ensures
        tokenize_scan(d + rest, acc, tokens) == tokenize_scan(
            rest,
            0,
            tokens.push(Token::Digit(run_val(acc, d) as i32)),
        ),
    decreases d.len(),
{
    let c = d.first();
    assert(is_digit_char(d[0]));
    let value = acc * 10 + digit_val(c);
    assert((d + rest).first() == c);
    assert((d + rest).drop_first() =~= d.drop_first() + rest);
    lemma_all_digits_drop_first(d);
    lemma_run_val_lower_bound(value, d.drop_first());
    assert(run_val(acc, d) == run_val(value, d.drop_first()));
    if d.len() == 1 {
        assert(d.drop_first() =~= Seq::<char>::empty());
        assert(d.drop_first() + rest =~= rest);
        assert(run_val(value, Seq::<char>::empty()) == value);
    } else {
        assert(d.drop_first().first() == d[1]);
        assert(is_digit_char(d[1]));
        assert((d.drop_first() + rest).first() == d[1]);
        lemma_tokenize_digit_run(d.drop_first(), rest, value, tokens);
    }
}

/// An operator with exactly two literal operands reduces to what applying
/// the operator yields, error cases included.
proof fn lemma_solve_binary(op: Operator, x: i32, y: i32)
    ensures
        spec_solve(seq![Token::Op(op), Token::Digit(x), Token::Digit(y)]) == spec_operate(
            op,
            x as int,
            y as int,
        ),
{
    let s = seq![Token::Op(op), Token::Digit(x), Token::Digit(y)];
    let s2 = seq![Token::Op(op), Token::Digit(x)];
    let s1 = seq![Token::Op(op)];
    assert(find_last_op(s1) == Some(0int));
    assert(s2.drop_last() =~= s1);
    assert(find_last_op(s2) == Some(0int));
    assert(s.drop_last() =~= s2);
    assert(find_last_op(s) == Some(0int));
    match spec_operate(op, x as int, y as int) {
        Ok(v) => {
            let spliced = s.subrange(0, 0).push(Token::Digit(v)) + s.subrange(3, 3);
            assert(spliced =~= seq![Token::Digit(v)]);
            assert(spec_solve(seq![Token::Digit(v)]) == Ok::<i32, EvalError>(v));
        },
        Err(e) => {},
    }
}

/// For every two-operand infix expression `a OP b` over nonnegative
/// literals, evaluating the rendered text yields exactly what applying the
/// operator to the two values yields — including the division and exponent
/// edge cases, which fail just as `spec_operate` says they do.
pub proof fn lemma_eval_binary_expression(a: int, op: Operator, b: int)
    requires
        0 <= a <= i32::MAX,
        0 <= b <= i32::MAX,
    ensures
        spec_calc(dec_digits(a) + seq![' ', char_of_op(op), ' '] + dec_digits(b)) == spec_operate(
            op,
            a,
            b,
        ),
{
    let da = dec_digits(a);
    let db = dec_digits(b);
    let opc = char_of_op(op);
    lemma_dec_digits(a);
    lemma_dec_digits(b);
    assert(is_op_char(opc));
    lemma_convert_binary(da, opc, db);
    let prefix = seq![opc] + da + seq![' '] + db;
    let empty_t = Seq::<Token>::empty();
    assert(prefix.first() == opc);
    assert(op_of(opc) == op);
    let rest1 = da + (seq![' '] + db);
    assert(prefix.drop_first() =~= rest1);
    assert(opc != ' ');
    assert(tokenize_scan(prefix, 0, empty_t) == tokenize_scan(
        rest1,
        0,
        empty_t.push(Token::Op(op)),
    ));
    let toks1 = empty_t.push(Token::Op(op));
    assert((seq![' '] + db).first() == ' ');
    lemma_tokenize_digit_run(da, seq![' '] + db, 0, toks1);
    let toks2 = toks1.push(Token::Digit(a as i32));
    assert(tokenize_scan(seq![' '] + db, 0, toks2) == tokenize_scan(db, 0, toks2)) by {
        assert((seq![' '] + db).drop_first() =~= db);
    }
    assert(db + Seq::<char>::empty() =~= db);
    lemma_tokenize_digit_run(db, Seq::<char>::empty(), 0, toks2);
    let toks3 = toks2.push(Token::Digit(b as i32));
    assert(tokenize_scan(Seq::<char>::empty(), 0, toks3) == Ok::<Seq<Token>, EvalError>(toks3));
    assert(spec_tokenize(prefix) == Ok::<Seq<Token>, EvalError>(toks3));
    assert(toks3 =~= seq![Token::Op(op), Token::Digit(a as i32), Token::Digit(b as i32)]);
    lemma_solve_binary(op, a as i32, b as i32);
}

/// A nonnegative integer literal standing alone evaluates to itself.
pub proof fn lemma_eval_single_literal(n: int)
    requires
        0 <= n <= i32::MAX,
    ensures
        spec_calc(dec_digits(n)) == Ok::<i32, EvalError>(n as i32),
{
    let d = dec_digits(n);
    let empty = Seq::<char>::empty();
    lemma_dec_digits(n);
    lemma_convert_scan_digits(empty, d, empty, empty);
    assert(empty + d =~= d);
    assert(empty + d.reverse() =~= d.reverse());
    assert(convert_scan(d, empty, empty) == convert_scan(empty, empty, d.reverse()));
    assert(convert_scan(empty, empty, d.reverse()) == Ok::<(Seq<char>, Seq<char>), EvalError>(
        (empty, d.reverse()),
    ));
    assert(drain_stack(empty, d.reverse()) == d.reverse());
    assert(d.reverse().reverse() =~= d);
    assert(spec_convert(d) == Ok::<Seq<char>, EvalError>(d));
    let empty_t = Seq::<Token>::empty();
    assert(d + empty =~= d);
    lemma_tokenize_digit_run(d, empty, 0, empty_t);
    let toks = empty_t.push(Token::Digit(n as i32));
    assert(tokenize_scan(empty, 0, toks) == Ok::<Seq<Token>, EvalError>(toks));
    assert(spec_tokenize(d) == Ok::<Seq<Token>, EvalError>(toks));
    assert(toks =~= seq![Token::Digit(n as i32)]);
    assert(spec_solve(seq![Token::Digit(n as i32)]) == Ok::<i32, EvalError>(n as i32));
}

} // verus!
