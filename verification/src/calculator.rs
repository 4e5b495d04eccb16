//! A reverse-Polish-notation calculator over a stack of inputs.
use vstd::prelude::*;

verus! {

#[derive(Debug, Clone, Copy, PartialEq, Eq, Structural)]
pub enum CalculatorInput {
    Add,
    Subtract,
    Multiply,
    Divide,
    Value(i32),
}

pub open spec fn in_i32(x: int) -> bool {
    i32::MIN <= x <= i32::MAX
}

/// Division truncating toward zero, as the `/` operator of the machine; total
/// with a zero divisor mapped to zero, which no panic-free run ever uses.
pub open spec fn div_trunc(x: int, d: int) -> int {
    if d == 0 {
        0
    } else if x == 0 {
        0
    } else if x > 0 && d > 0 {
        x / d
    } else if x < 0 && d < 0 {
        (x * -1) / (d * -1)
    } else if x < 0 {
        ((x * -1) / d) * -1
    } else {
        (x / (d * -1)) * -1
    }
}

/// One calculator step on a stack of values: a value is pushed; an operator
/// pops the two topmost values (the stack underflows to nothing if it holds
/// fewer) and pushes the result of `second op top`.
pub open spec fn rpn_step(stack: Seq<int>, input: CalculatorInput) -> Option<Seq<int>> {
    match input {
        CalculatorInput::Value(v) => Some(stack.push(v as int)),
        _ => {
            if stack.len() < 2 {
                None
            } else {
                let op1 = stack.last();
                let op2 = stack[stack.len() - 2];
                let rest = stack.take(stack.len() - 2);
                match input {
                    CalculatorInput::Add => Some(rest.push(op2 + op1)),
                    CalculatorInput::Subtract => Some(rest.push(op2 - op1)),
                    CalculatorInput::Multiply => Some(rest.push(op2 * op1)),
                    _ => Some(rest.push(div_trunc(op2, op1))),
                }
            }
        },
    }
}

/// Whether one step avoids the machine's failure modes: overflow of the
/// arithmetic result, and division by zero.
pub open spec fn step_ok(stack: Seq<int>, input: CalculatorInput) -> bool {
    match input {
        CalculatorInput::Value(_) => true,
        _ => {
            stack.len() >= 2 ==> {
                let op1 = stack.last();
                let op2 = stack[stack.len() - 2];
                match input {
                    CalculatorInput::Add => in_i32(op2 + op1),
                    CalculatorInput::Subtract => in_i32(op2 - op1),
                    CalculatorInput::Multiply => in_i32(op2 * op1),
                    _ => op1 != 0 && in_i32(div_trunc(op2, op1)),
                }
            }
        },
    }
}

/// The stack after evaluating all inputs, or nothing once a step underflows.
pub open spec fn rpn_eval(stack: Seq<int>, inputs: Seq<CalculatorInput>) -> Option<Seq<int>>
    decreases inputs.len(),
{
    if inputs.len() == 0 {
        Some(stack)
    } else {
        match rpn_step(stack, inputs[0]) {
            None => None,
            Some(s2) => rpn_eval(s2, inputs.drop_first()),
        }
    }
}

/// Whether a whole evaluation stays clear of overflow and division by zero.
pub open spec fn eval_ok(stack: Seq<int>, inputs: Seq<CalculatorInput>) -> bool
    decreases inputs.len(),
{
    if inputs.len() == 0 {
        true
    } else {
        step_ok(stack, inputs[0]) && match rpn_step(stack, inputs[0]) {
            None => true,
            Some(s2) => eval_ok(s2, inputs.drop_first()),
        }
    }
}

/// What evaluation yields: the lone remaining value, or nothing on underflow
/// or a leftover stack.
pub open spec fn spec_evaluate(inputs: Seq<CalculatorInput>) -> Option<i32> {
    match rpn_eval(Seq::empty(), inputs) {
        None => None,
        Some(s) => if s.len() == 1 {
            Some(s[0] as i32)
        } else {
            None
        },
    }
}

/// Pops the two topmost entries; yields their values (topmost first) exactly
/// when both are values.
pub fn pop_operands_of_stack(stack: &mut Vec<CalculatorInput>) -> (r: Option<(i32, i32)>)
    ensures
        old(stack)@.len() == 0 ==> final(stack)@ == old(stack)@ && r is None,
        old(stack)@.len() == 1 ==> final(stack)@ == old(stack)@.take(0) && r is None,
        old(stack)@.len() >= 2 ==> {
            &&& final(stack)@ == old(stack)@.take(old(stack)@.len() - 2)
            &&& (match (old(stack)@.last(), old(stack)@[old(stack)@.len() - 2]) {
                (CalculatorInput::Value(v1), CalculatorInput::Value(v2)) => r == Some((v1, v2)),
                _ => r is None,
            })
        },
{
    let operands = (stack.pop(), stack.pop());
    proof {
        if old(stack)@.len() == 1 {
            assert(stack@ =~= old(stack)@.take(0));
        }
        if old(stack)@.len() >= 2 {
            assert(stack@ =~= old(stack)@.take(old(stack)@.len() - 2));
        }
    }
    match operands {
        (Some(CalculatorInput::Value(op1)), Some(CalculatorInput::Value(op2))) => Some((op1, op2)),
        _ => None,
    }
}

/// Whether every stack entry is a literal value.
pub open spec fn all_values(s: Seq<CalculatorInput>) -> bool {
    forall|j: int| 0 <= j < s.len() ==> (#[trigger] s[j]) matches CalculatorInput::Value(_)
}

/// The integers a stack of values holds.
pub open spec fn stack_vals(s: Seq<CalculatorInput>) -> Seq<int> {
    s.map_values(
        |ci: CalculatorInput|
            match ci {
                CalculatorInput::Value(v) => v as int,
                _ => 0int,
            },
    )
}

/// Evaluates the inputs as reverse Polish notation: the lone value left on
/// the stack at the end, or nothing if the stack underflows or does not end
/// with exactly one value.
pub fn evaluate(inputs: &[CalculatorInput]) -> (r: Option<i32>)
    requires
        eval_ok(Seq::empty(), inputs@),
    ensures
        r == spec_evaluate(inputs@),
{
    let mut stack: Vec<CalculatorInput> = Vec::new();
    let n = inputs.len();
    proof {
        assert(inputs@.skip(0) =~= inputs@);
        assert(stack_vals(stack@) =~= Seq::<int>::empty());
    }
    for i in 0..n
        invariant
            n == inputs@.len(),
            eval_ok(Seq::empty(), inputs@),
            all_values(stack@),
            forall|j: int| 0 <= j < stack_vals(stack@).len() ==> in_i32(#[trigger] stack_vals(stack@)[j]),
            rpn_eval(Seq::empty(), inputs@) == rpn_eval(stack_vals(stack@), inputs@.skip(i as int)),
            eval_ok(stack_vals(stack@), inputs@.skip(i as int)),
    {
        let ghost vals = stack_vals(stack@);
        let ghost rest = inputs@.skip(i as int);
        proof {
            assert(rest[0] == inputs@[i as int]);
            assert(rest.drop_first() =~= inputs@.skip(i + 1));
        }
        let input = inputs[i];
        match input {
            CalculatorInput::Value(v) => {
                stack.push(input);
                proof {
                    assert(stack_vals(stack@) =~= vals.push(v as int));
                }
            },
            _ => {
                let res: i32;
                match pop_operands_of_stack(&mut stack) {
                    Some((op1, op2)) => {
                        proof {
                            assert(vals.len() >= 2);
                            assert(vals.last() == op1 as int);
                            assert(vals[vals.len() - 2] == op2 as int);
                            assert(stack_vals(stack@) =~= vals.take(vals.len() - 2));
                        }
                        match input {
                            CalculatorInput::Add => res = op2 + op1,
                            CalculatorInput::Subtract => res = op2 - op1,
                            CalculatorInput::Multiply => res = op2 * op1,
                            CalculatorInput::Divide => {
                                res = match op2.checked_div(op1) {
                                    Some(v) => v,
                                    None => {
                                        proof {
                                            assert(false);
                                        }
                                        0
                                    },
                                };
                                proof {
                                    assert(res as int == div_trunc(op2 as int, op1 as int));
                                }
                            },
                            _ => {
                                proof {
                                    assert(false);
                                }
                                return None;
                            },
                        }
                        let ghost vals2 = stack_vals(stack@);
                        stack.push(CalculatorInput::Value(res));
                        proof {
                            assert(stack_vals(stack@) =~= vals2.push(res as int));
                            assert(rpn_step(vals, input) == Some(stack_vals(stack@)));
                        }
                    },
                    None => {
                        proof {
                            assert(vals.len() < 2) by {
                                if vals.len() >= 2 {
                                    assert(stack@.len() == vals.len());
                                    assert(stack@.last() matches CalculatorInput::Value(_));
                                    assert(stack@[stack@.len() - 2]
                                        matches CalculatorInput::Value(_));
                                }
                            }
                            assert(rpn_step(vals, input) is None);
                            assert(rpn_eval(vals, rest) is None);
                        }
                        return None;
                    },
                }
            },
        }
        proof {
            assert(rpn_eval(vals, rest) == rpn_eval(stack_vals(stack@), inputs@.skip(i + 1)));
        }
    }
    proof {
        assert(inputs@.skip(n as int) =~= Seq::<CalculatorInput>::empty());
        assert(rpn_eval(stack_vals(stack@), inputs@.skip(n as int)) == Some(stack_vals(stack@)));
    }
    if stack.len() == 1 {
        let ghost vals = stack_vals(stack@);
        match stack.pop() {
            Some(CalculatorInput::Value(result)) => {
                proof {
                    assert(vals[0] == result as int);
                }
                Some(result)
            },
            _ => {
                proof {
                    assert(false);
                }
                None
            },
        }
    } else {
        None
    }
}

} // verus!
