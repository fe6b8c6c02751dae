//! The postfix evaluator: a single-pass stack machine over the token
//! sequence of a compiled `Equation`.

use vstd::prelude::*;
use crate::equation::{Equation, Op, SpecTok, Token};

verus! {

/// Outcome of evaluating one digit arrangement.
///
/// `DivByZero`, `Negative` and `Overflow` arise from a specific digit
/// assignment and mark the candidate as non-matching; `Structural` (a stack
/// underflow, or leftover operands) is a defect of the compiled equation
/// itself and recurs for every candidate.
#[derive(Clone, Copy, PartialEq, Eq, Structural, Debug)]
pub enum EvalResult {
    /// The two sides of `=` reduced to the same value.
    Match,
    NoMatch,
    /// A division met a zero divisor.
    DivByZero,
    /// A subtraction went below zero under unsigned arithmetic.
    Negative,
    /// An intermediate value left the `u64` range.
    Overflow,
    /// Stack underflow or leftover operands: the postfix sequence is
    /// malformed.
    Malformed,
}

/// Digit assigned to variable `i`, or 0 when `i` is out of range (the
/// compiler's invariant keeps every index in range).
pub open spec fn digit_at(i: usize, d: Seq<u8>) -> int {
    if i < d.len() {
        d[i as int] as int
    } else {
        0
    }
}

/// Value of an operand word under the digit assignment `d`: each letter is a
/// decimal digit, most significant first.
pub open spec fn word_val(w: Seq<usize>, d: Seq<u8>) -> int
    decreases w.len(),
{
    if w.len() == 0 {
        0
    } else {
        word_val(w.drop_last(), d) * 10 + digit_at(w.last(), d)
    }
}

pub proof fn lemma_word_val_nonneg(w: Seq<usize>, d: Seq<u8>)
    ensures
        word_val(w, d) >= 0,
    decreases w.len(),
{
    if w.len() > 0 {
        lemma_word_val_nonneg(w.drop_last(), d);
    }
}

/// The value of a prefix of a word never exceeds the value of the word:
/// appending a digit multiplies by ten and adds a non-negative digit.
pub proof fn lemma_word_val_prefix(w: Seq<usize>, d: Seq<u8>, j: int)
    requires
        0 <= j <= w.len(),
    ensures
        word_val(w.take(j), d) <= word_val(w, d),
    decreases w.len(),
{
    lemma_word_val_nonneg(w.take(j), d);
    if j < w.len() {
        assert(w.drop_last().take(j) =~= w.take(j));
        lemma_word_val_prefix(w.drop_last(), d, j);
        lemma_word_val_nonneg(w.drop_last(), d);
    } else {
        assert(w.take(j) =~= w);
    }
}

/// What a binary operator does to the two popped values (`b` was on top).
/// Division truncates toward zero.
pub open spec fn apply_op(op: Op, a: int, b: int) -> Result<int, EvalResult> {
    match op {
        Op::Add => if a + b > u64::MAX {
            Err(EvalResult::Overflow)
        } else {
            Ok(a + b)
        },
        Op::Sub => if a - b < 0 {
            Err(EvalResult::Negative)
        } else {
            Ok(a - b)
        },
        Op::Mul => if a * b > u64::MAX {
            Err(EvalResult::Overflow)
        } else {
            Ok(a * b)
        },
        Op::Div => if b == 0 {
            Err(EvalResult::DivByZero)
        } else {
            Ok(a / b)
        },
        Op::Equals => Ok(if a == b {
            1
        } else {
            0
        }),
    }
}

/// The stack machine from token `i` onward, starting from `stack`.  At the
/// end a single 1 on the stack means a match, any other single value a
/// non-match, and anything else a structural defect.
pub open spec fn eval_from(toks: Seq<SpecTok>, d: Seq<u8>, i: int, stack: Seq<int>) -> EvalResult
    decreases toks.len() - i when 0 <= i <= toks.len()
{
    if i >= toks.len() {
        if stack.len() == 1 {
            if stack[0] == 1 {
                EvalResult::Match
            } else {
                EvalResult::NoMatch
            }
        } else {
            EvalResult::Malformed
        }
    } else {
        match toks[i] {
            SpecTok::Word(w) => {
                let v = word_val(w, d);
                if v > u64::MAX {
                    EvalResult::Overflow
                } else {
                    eval_from(toks, d, i + 1, stack.push(v))
                }
            },
            SpecTok::Operator(op) => {
                if stack.len() < 2 {
                    EvalResult::Malformed
                } else {
                    let b = stack.last();
                    let a = stack[stack.len() - 2];
                    match apply_op(op, a, b) {
                        Ok(v) => eval_from(
                            toks,
                            d,
                            i + 1,
                            stack.drop_last().drop_last().push(v),
                        ),
                        Err(e) => e,
                    }
                }
            },
        }
    }
}

/// The evaluator's whole contract: what `Equation::eval` returns.
pub open spec fn spec_eval(toks: Seq<SpecTok>, d: Seq<u8>) -> EvalResult {
    eval_from(toks, d, 0, Seq::empty())
}

impl Equation {
    /// Evaluate the equation under one digit arrangement: `digits[i]` is the
    /// digit of variable `i`.  Single pass over the postfix tokens; reports
    /// division by zero, negative intermediates, overflow and malformed
    /// postfix instead of panicking.
    pub fn eval(&self, digits: &Vec<u8>) -> (r: EvalResult)
        requires
            self.wf(),
            digits@.len() == self.vars@.len(),
        ensures
            r == spec_eval(self.postfix_model(), digits@),
    {
        let ghost toks = self.postfix_model();
        let mut stack: Vec<u64> = Vec::new();
        proof {
            assert(stack@.map_values(|x: u64| x as int) =~= Seq::<int>::empty());
        }
        let nt = self.postfix.len();
        let mut i: usize = 0;
        while i < nt
            invariant
                0 <= i <= nt,
                nt == self.postfix@.len(),
                toks == self.postfix_model(),
                self.wf(),
                digits@.len() == self.vars@.len(),
                spec_eval(toks, digits@) == eval_from(
                    toks,
                    digits@,
                    i as int,
                    stack@.map_values(|x: u64| x as int),
                ),
            decreases nt - i,
        {
            let ghost sk = stack@.map_values(|x: u64| x as int);
            proof {
                assert(toks[i as int] == self.postfix@[i as int]@);
            }
            match &self.postfix[i] {
                Token::Word(w) => {
                    let ghost ws = w@;
                    proof {
                        assert(wf_word(ws, self.vars@.len()));
                    }
                    let mut value: u64 = 0;
                    let nw = w.len();
                    let mut j: usize = 0;
                    while j < nw
                        invariant
                            0 <= j <= nw,
                            nw == ws.len(),
                            ws == w@,
                            digits@.len() == self.vars@.len(),
                            forall|x: int| 0 <= x < ws.len() ==> #[trigger] ws[x] < digits@.len(),
                            value as int == word_val(ws.take(j as int), digits@),
                            0 <= i < toks.len(),
                            toks == self.postfix_model(),
                            toks[i as int] == SpecTok::Word(ws),
                            sk == stack@.map_values(|x: u64| x as int),
                            spec_eval(toks, digits@) == eval_from(toks, digits@, i as int, sk),
                        decreases nw - j,
                    {
                        let idx = w[j];
                        let dgt = digits[idx] as u64;
                        let stepped = match value.checked_mul(10) {
                            Some(v10) => v10.checked_add(dgt),
                            None => None,
                        };
                        proof {
                            assert(ws.take(j as int + 1).drop_last() =~= ws.take(j as int));
                            assert(word_val(ws.take(j as int + 1), digits@) == value as int * 10
                                + dgt as int);
                        }
                        match stepped {
                            Some(v) => {
                                value = v;
                            },
                            None => {
                                proof {
                                    assert(value as int * 10 + dgt as int > u64::MAX);
                                    assert(word_val(ws.take(j as int + 1), digits@) > u64::MAX);
                                    lemma_word_val_prefix(ws, digits@, j as int + 1);
                                    assert(word_val(ws, digits@) > u64::MAX);
                                }
                                return EvalResult::Overflow;
                            },
                        }
                        j += 1;
                    }
                    proof {
                        assert(ws.take(nw as int) =~= ws);
                        assert(stack@.push(value).map_values(|x: u64| x as int) =~= sk.push(
                            value as int,
                        ));
                    }
                    stack.push(value);
                },
                Token::Operator(op) => {
                    if stack.len() < 2 {
                        return EvalResult::Malformed;
                    }
                    let b = stack[stack.len() - 1];
                    let a = stack[stack.len() - 2];
                    stack.pop();
                    stack.pop();
                    proof {
                        assert(stack@.map_values(|x: u64| x as int) =~= sk.drop_last().drop_last());
                    }
                    let v: u64 = match op {
                        Op::Add => {
                            match a.checked_add(b) {
                                Some(v) => v,
                                None => {
                                    return EvalResult::Overflow;
                                },
                            }
                        },
                        Op::Sub => {
                            if a < b {
                                return EvalResult::Negative;
                            } else {
                                a - b
                            }
                        },
                        Op::Mul => {
                            match a.checked_mul(b) {
                                Some(v) => v,
                                None => {
                                    return EvalResult::Overflow;
                                },
                            }
                        },
                        Op::Div => {
                            if b == 0 {
                                return EvalResult::DivByZero;
                            } else {
                                a / b
                            }
                        },
                        Op::Equals => {
                            if a == b {
                                1
                            } else {
                                0
                            }
                        },
                    };
                    proof {
                        assert(stack@.push(v).map_values(|x: u64| x as int)
                            =~= sk.drop_last().drop_last().push(v as int));
                    }
                    stack.push(v);
                },
            }
            i += 1;
        }
        if stack.len() == 1 {
            if stack[0] == 1 {
                EvalResult::Match
            } else {
                EvalResult::NoMatch
            }
        } else {
            EvalResult::Malformed
        }
    }
}

/// A word token's indices all point into the variable list.
pub open spec fn wf_word(w: Seq<usize>, nvars: nat) -> bool {
    forall|j: int| 0 <= j < w.len() ==> w[j] < nvars
}

} // verus!
