//! The stack machine that evaluates a reverse-Polish token sequence.
//!
//! The mathematical model is [`spec_eval`]: a single left-to-right pass
//! over the tokens, threading an operand stack of unbounded integers.
//! [`eval`] is the executable counterpart on `i32`; its precondition
//! [`eval_fits`] asks only that no intermediate result leaves `i32`
//! range, the one limit the machine integers force.

use crate::expr::{EvalError, Expr};
use vstd::prelude::*;

verus! {

/// The magnitude of an integer.
pub open spec fn abs_val(x: int) -> int {
    if x < 0 {
        -x
    } else {
        x
    }
}

/// Integer division truncating toward zero, as Rust's `/` computes it on
/// machine integers.  (On `int`, `/` is Euclidean division, which differs
/// on negative operands.)
pub open spec fn div_trunc(l: int, r: int) -> int {
    if (l < 0) == (r < 0) {
        abs_val(l) / abs_val(r)
    } else {
        -(abs_val(l) / abs_val(r))
    }
}

/// The value an operator token computes from its left and right operands.
/// Only the four operator variants are meaningful here.
pub open spec fn op_val(t: Expr, l: int, r: int) -> int {
    match t {
        Expr::Num(_) => 0,
        Expr::Add => l + r,
        Expr::Sub => l - r,
        Expr::Mul => l * r,
        Expr::Div => div_trunc(l, r),
    }
}

/// Run the stack machine over `toks`, starting from `stack` (top at the
/// end): a number is pushed; an operator pops its right operand, then its
/// left, and pushes `left OP right`.  The result is the final stack, or
/// the first failure.
pub open spec fn run_stack(toks: Seq<Expr>, stack: Seq<int>) -> Result<Seq<int>, EvalError>
    decreases toks.len(),
{
    if toks.len() == 0 {
        Ok(stack)
    } else {
        match toks[0] {
            Expr::Num(v) => run_stack(toks.drop_first(), stack.push(v as int)),
            t => {
                if stack.len() < 2 {
                    Err(EvalError::StackUnderflow)
                } else if t is Div && stack.last() == 0 {
                    Err(EvalError::DivisionByZero)
                } else {
                    let l = stack[stack.len() - 2];
                    let r = stack.last();
                    run_stack(toks.drop_first(), stack.drop_last().drop_last().push(op_val(t, l, r)))
                }
            },
        }
    }
}

/// The result of evaluating a token sequence: the single value left on
/// the stack, or the first failure; a final stack of any other height is
/// a malformed expression.
pub open spec fn spec_eval(toks: Seq<Expr>) -> Result<int, EvalError> {
    match run_stack(toks, Seq::empty()) {
        Ok(stack) => if stack.len() == 1 {
            Ok(stack[0])
        } else {
            Err(EvalError::MalformedExpression)
        },
        Err(e) => Err(e),
    }
}

/// Whether an integer is representable as an `i32`.
pub open spec fn fits_i32(x: int) -> bool {
    i32::MIN <= x <= i32::MAX
}

/// Whether every value the run of the stack machine pushes fits in `i32`,
/// so that the run can be carried out on machine integers.
pub open spec fn run_fits(toks: Seq<Expr>, stack: Seq<int>) -> bool
    decreases toks.len(),
{
    if toks.len() == 0 {
        true
    } else {
        match toks[0] {
            Expr::Num(v) => run_fits(toks.drop_first(), stack.push(v as int)),
            t => {
                if stack.len() < 2 {
                    true
                } else if t is Div && stack.last() == 0 {
                    true
                } else {
                    let l = stack[stack.len() - 2];
                    let r = stack.last();
                    fits_i32(op_val(t, l, r)) && run_fits(
                        toks.drop_first(),
                        stack.drop_last().drop_last().push(op_val(t, l, r)),
                    )
                }
            },
        }
    }
}

/// Whether evaluating `toks` from an empty stack stays within `i32`.
pub open spec fn eval_fits(toks: Seq<Expr>) -> bool {
    run_fits(toks, Seq::empty())
}

/// The operand stack as a sequence of unbounded integers.
pub open spec fn stack_ints(s: Seq<i32>) -> Seq<int> {
    s.map_values(|x: i32| x as int)
}

/// Truncating `i32` division through `u64` magnitudes, since the result
/// is specified by [`div_trunc`] rather than Euclidean division.
fn div_trunc_i32(l: i32, r: i32) -> (q: i32)
    requires
        r != 0,
        fits_i32(div_trunc(l as int, r as int)),
    ensures
        q as int == div_trunc(l as int, r as int),
{
    let li: i64 = l as i64;
    let ri: i64 = r as i64;
    let la: u64 = if li < 0 {
        (-li) as u64
    } else {
        li as u64
    };
    let ra: u64 = if ri < 0 {
        (-ri) as u64
    } else {
        ri as u64
    };
    assert(la as int == abs_val(l as int));
    assert(ra as int == abs_val(r as int));
    let qa: u64 = la / ra;
    let neg = (l < 0) != (r < 0);
    proof {
        if neg {
            assert(div_trunc(l as int, r as int) == -(qa as int));
        } else {
            assert(div_trunc(l as int, r as int) == qa as int);
        }
        assert(qa <= 0x8000_0000);
    }
    let qi: i64 = if neg {
        -(qa as i64)
    } else {
        qa as i64
    };
    qi as i32
}

/// Pop the two operands of operator `t`, apply it, and push the result;
/// the errors are exactly those [`run_stack`] gives to one operator step.
fn step_op(t: Expr, stack: &mut Vec<i32>) -> (res: Result<(), EvalError>)
    requires
        !(t is Num),
        old(stack)@.len() >= 2 && !(t is Div && old(stack)@.last() == 0) ==> fits_i32(
            op_val(t, old(stack)@[old(stack)@.len() - 2] as int, old(stack)@.last() as int),
        ),
    ensures
        match res {
            Ok(()) => {
                &&& old(stack)@.len() >= 2
                &&& !(t is Div && old(stack)@.last() == 0)
                &&& stack_ints(final(stack)@) == stack_ints(old(stack)@).drop_last().drop_last().push(
                    op_val(t, old(stack)@[old(stack)@.len() - 2] as int, old(stack)@.last() as int),
                )
            },
            Err(e) => {
                &&& old(stack)@.len() < 2 || (t is Div && old(stack)@.last() == 0)
                &&& (e == EvalError::StackUnderflow <==> old(stack)@.len() < 2)
                &&& (e == EvalError::DivisionByZero <==> (old(stack)@.len() >= 2 && t is Div
                    && old(stack)@.last() == 0))
            },
        },
{
    let r = match stack.pop() {
        Some(x) => x,
        None => {
            return Err(EvalError::StackUnderflow);
        },
    };
    let l = match stack.pop() {
        Some(x) => x,
        None => {
            return Err(EvalError::StackUnderflow);
        },
    };
    let ghost pre = old(stack)@;
    let v: i32 = match t {
        Expr::Add => l + r,
        Expr::Sub => l - r,
        Expr::Mul => l * r,
        Expr::Div => {
            if r == 0 {
                return Err(EvalError::DivisionByZero);
            }
            div_trunc_i32(l, r)
        },
        Expr::Num(_) => vstd::pervasive::unreached(),
    };
    stack.push(v);
    proof {
        assert(stack_ints(stack@) =~= stack_ints(pre).drop_last().drop_last().push(
            op_val(t, pre[pre.len() - 2] as int, pre.last() as int),
        ));
    }
    Ok(())
}

/// Evaluate a reverse-Polish token sequence: numbers are pushed onto an
/// operand stack, each operator replaces the top two values `l` (lower)
/// and `r` (top) by `l OP r`, and the one value left at the end is the
/// result.  The result and every error are exactly those of
/// [`spec_eval`]; the precondition asks only that no intermediate value
/// leaves `i32` range.
pub fn eval(expr: Vec<Expr>) -> (r: Result<i32, EvalError>)
    requires
        eval_fits(expr@),
    ensures
        match r {
            Ok(v) => spec_eval(expr@) == Ok::<int, EvalError>(v as int),
            Err(e) => spec_eval(expr@) == Err::<int, EvalError>(e),
        },
{
    let n = expr.len();
    let mut stack: Vec<i32> = Vec::new();
    let mut i: usize = 0;
    proof {
        assert(expr@.skip(0) =~= expr@);
        assert(stack_ints(stack@) =~= Seq::<int>::empty());
    }
    while i < n
        invariant
            n == expr@.len(),
            i <= n,
            run_stack(expr@, Seq::empty()) == run_stack(expr@.skip(i as int), stack_ints(stack@)),
            run_fits(expr@.skip(i as int), stack_ints(stack@)),
        decreases n - i,
    {
        let ghost rest = expr@.skip(i as int);
        let ghost cur = stack_ints(stack@);
        proof {
            assert(rest[0] == expr@[i as int]);
            assert(rest.drop_first() =~= expr@.skip(i as int + 1));
        }
        let t = expr[i];
        match t {
            Expr::Num(v) => {
                let ghost pre = stack@;
                stack.push(v);
                proof {
                    assert(stack_ints(stack@) =~= stack_ints(pre).push(v as int));
                }
            },
            _ => {
                proof {
                    if cur.len() >= 2 {
                        assert(cur[cur.len() - 2] == stack@[stack@.len() - 2] as int);
                        assert(cur.last() == stack@.last() as int);
                    }
                }
                match step_op(t, &mut stack) {
                    Ok(()) => {},
                    Err(e) => {
                        proof {
                            assert(run_stack(rest, cur) == Err::<Seq<int>, EvalError>(e));
                        }
                        return Err(e);
                    },
                }
            },
        }
        i = i + 1;
    }
    proof {
        assert(expr@.skip(n as int) =~= Seq::<Expr>::empty());
        assert(run_stack(expr@, Seq::empty()) == Ok::<Seq<int>, EvalError>(stack_ints(stack@)));
    }
    if stack.len() == 1 {
        Ok(stack[0])
    } else {
        Err(EvalError::MalformedExpression)
    }
}

} // verus!
