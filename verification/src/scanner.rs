use vstd::prelude::*;

use crate::enum_types::EvalError;

verus! {

/// A cursor over a finite character sequence. Characters can be consumed from
/// the front (tokenizing runs left to right) or from the back (the infix to
/// prefix rewrite runs right to left), and a one-position lookahead past the
/// next front character is available without consuming.
pub struct Scanner {
    chars: Vec<char>,
    front: usize,
    back: usize,
}

/// Relies on str::chars: yields exactly the characters of the string, in order.
#[verifier::external_body]
pub(crate) fn chars_of(s: &str) -> (r: Vec<char>)
    ensures
        r@ == s@,
{
    s.chars().collect()
}

/// Relies on String::from_iter: builds the string holding exactly the given
/// characters, in order.
#[verifier::external_body]
pub(crate) fn string_from_chars(v: &Vec<char>) -> (r: String)
    ensures
        r@ == v@,
{
    v.iter().collect()
}

impl View for Scanner {
    type V = Seq<char>;

    /// The characters that remain to be consumed.
    closed spec fn view(&self) -> Seq<char> {
        self.chars@.subrange(self.front as int, self.back as int)
    }
}

impl Scanner {
    #[verifier::type_invariant]
    spec fn wf(&self) -> bool {
        self.front <= self.back && self.back <= self.chars@.len()
    }

    /// Wraps a character sequence; nothing is consumed yet.
    pub fn new(chars: Vec<char>) -> (s: Scanner)
        ensures
            s@ == chars@,
    {
        let len = chars.len();
        let s = Scanner { chars, front: 0, back: len };
        proof {
            assert(s@ =~= s.chars@);
        }
        s
    }

    /// How many characters remain.
    pub fn len(&self) -> (n: usize)
        ensures
            n == self@.len(),
    {
        proof {
            use_type_invariant(self);
        }
        self.back - self.front
    }

    /// Removes and returns the first remaining character; fails with
    /// `EndOfInput` if none remain.
    pub fn advance(&mut self) -> (r: Result<char, EvalError>)
        ensures
            old(self)@.len() > 0 ==> r == Ok::<char, EvalError>(old(self)@[0]) && final(self)@
                == old(self)@.drop_first(),
            old(self)@.len() == 0 ==> r == Err::<char, EvalError>(EvalError::EndOfInput) && final(self)@ == old(self)@,
    {
        proof {
            use_type_invariant(&*self);
        }
        if self.front < self.back {
            let c = self.chars[self.front];
            self.front = self.front + 1;
            proof {
                assert(self@ =~= old(self)@.drop_first());
            }
            Ok(c)
        } else {
            Err(EvalError::EndOfInput)
        }
    }

    /// Removes and returns the last remaining character; fails with
    /// `EndOfInput` if none remain.
    pub fn advance_from_back(&mut self) -> (r: Result<char, EvalError>)
        ensures
            old(self)@.len() > 0 ==> r == Ok::<char, EvalError>(old(self)@.last()) && final(self)@ == old(self)@.drop_last(),
            old(self)@.len() == 0 ==> r == Err::<char, EvalError>(EvalError::EndOfInput) && final(self)@ == old(self)@,
    {
        proof {
            use_type_invariant(&*self);
        }
        if self.front < self.back {
            let c = self.chars[self.back - 1];
            self.back = self.back - 1;
            proof {
                assert(self@ =~= old(self)@.drop_last());
            }
            Ok(c)
        } else {
            Err(EvalError::EndOfInput)
        }
    }

    /// Returns the character one position past the current front, that is the
    /// character after the one `advance` would return next, without consuming
    /// anything; fails with `AtEnd` if fewer than two characters remain.
    pub fn peek(&self) -> (r: Result<char, EvalError>)
        ensures
            self@.len() >= 2 ==> r == Ok::<char, EvalError>(self@[1]),
            self@.len() < 2 ==> r == Err::<char, EvalError>(EvalError::AtEnd),
    {
        proof {
            use_type_invariant(self);
        }
        if self.back - self.front >= 2 {
            Ok(self.chars[self.front + 1])
        } else {
            Err(EvalError::AtEnd)
        }
    }
}

} // verus!
