//! The expression reducer: a pure transformation of a finished token stream
//! into a single integer. Reordering into postfix form is a two-level
//! shunting yard restricted to the four binary operators, with no
//! parentheses and strictly left-to-right associativity within a precedence
//! level; evaluation reduces the postfix stream with a numeric stack.

use vstd::prelude::*;

verus! {

/// One unit of the committed expression: an operator, or a signed operand.
#[derive(Debug, PartialEq, Eq, Structural, Clone, Copy)]
pub enum Tokens {
    Add,
    Sub,
    Mul,
    Div,
    Number(i64),
}

/// The failure conditions the reducer reports instead of aborting.
#[derive(Debug, PartialEq, Eq, Structural, Clone, Copy)]
pub enum EvalError {
    /// The right operand of a division was zero.
    DivisionByZero,
    /// An intermediate result fell outside the `i64` range.
    Overflow,
    /// The token stream was not an alternating operand/operator expression.
    MalformedExpression,
}

/// Operator precedence: additive operators bind weaker than multiplicative
/// ones. Operands carry no precedence and map to 0.
pub open spec fn precedence(t: Tokens) -> int {
    match t {
        Tokens::Add | Tokens::Sub => 1,
        Tokens::Mul | Tokens::Div => 2,
        Tokens::Number(_) => 0,
    }
}

pub open spec fn is_operator(t: Tokens) -> bool {
    match t {
        Tokens::Number(_) => false,
        _ => true,
    }
}

/// While the top of the operator stack has precedence `p`, pop it to the
/// output. Returns the remaining stack and the extended output.
pub open spec fn sy_drain(stack: Seq<Tokens>, out: Seq<Tokens>, p: int) -> (Seq<Tokens>, Seq<
    Tokens,
>)
    decreases stack.len(),
{
    if stack.len() > 0 && precedence(stack.last()) == p {
        sy_drain(stack.drop_last(), out.push(stack.last()), p)
    } else {
        (stack, out)
    }
}

/// Pop every remaining stacked operator to the output, in LIFO order.
pub open spec fn sy_flush(stack: Seq<Tokens>, out: Seq<Tokens>) -> Seq<Tokens>
    decreases stack.len(),
{
    if stack.len() == 0 {
        out
    } else {
        sy_flush(stack.drop_last(), out.push(stack.last()))
    }
}

/// One token at a time: operands go straight to the output; an operator
/// first pops the stacked operators of its own precedence level, then is
/// pushed. At the end the stack is flushed.
pub open spec fn sy_run(input: Seq<Tokens>, stack: Seq<Tokens>, out: Seq<Tokens>) -> Seq<Tokens>
    decreases input.len(),
{
    if input.len() == 0 {
        sy_flush(stack, out)
    } else {
        match input[0] {
            Tokens::Number(_) => sy_run(input.skip(1), stack, out.push(input[0])),
            _ => {
                let drained = sy_drain(stack, out, precedence(input[0]));
                sy_run(input.skip(1), drained.0.push(input[0]), drained.1)
            },
        }
    }
}

/// The infix token stream reordered into postfix (reverse Polish) order.
pub open spec fn spec_shunting_yard(input: Seq<Tokens>) -> Seq<Tokens> {
    sy_run(input, Seq::empty(), Seq::empty())
}

pub open spec fn in_i64_range(v: int) -> bool {
    i64::MIN <= v <= i64::MAX
}

/// Division that rounds toward zero, as the machine division instruction
/// does; spec-mode `/` rounds toward negative infinity instead.
pub open spec fn div_truncate(x: int, y: int) -> int
    recommends
        y != 0,
{
    if x >= 0 && y > 0 {
        x / y
    } else if x < 0 && y < 0 {
        (-x) / (-y)
    } else if x < 0 {
        -((-x) / y)
    } else {
        -(x / (-y))
    }
}

/// The unbounded mathematical result of one binary operator.
pub open spec fn apply_operator(op: Tokens, x: int, y: int) -> int
    recommends
        is_operator(op),
        op == Tokens::Div ==> y != 0,
{
    match op {
        Tokens::Add => x + y,
        Tokens::Sub => x - y,
        Tokens::Mul => x * y,
        _ => div_truncate(x, y),
    }
}

/// One reduction step: `x op y`, with division by zero and results outside
/// the `i64` range reported as errors.
pub open spec fn eval_step(op: Tokens, x: i64, y: i64) -> Result<i64, EvalError>
    recommends
        is_operator(op),
{
    if op == Tokens::Div && y == 0 {
        Err(EvalError::DivisionByZero)
    } else {
        let v = apply_operator(op, x as int, y as int);
        if in_i64_range(v) {
            Ok(v as i64)
        } else {
            Err(EvalError::Overflow)
        }
    }
}

/// Stack reduction of a postfix stream: operands are pushed; an operator
/// pops the right operand `y`, then the left operand `x`, and pushes
/// `x op y`. Exactly one value must remain at the end.
pub open spec fn eval_postfix_from(input: Seq<Tokens>, stack: Seq<i64>) -> Result<i64, EvalError>
    decreases input.len(),
{
    if input.len() == 0 {
        if stack.len() == 1 {
            Ok(stack[0])
        } else {
            Err(EvalError::MalformedExpression)
        }
    } else {
        match input[0] {
            Tokens::Number(n) => eval_postfix_from(input.skip(1), stack.push(n)),
            _ => {
                if stack.len() < 2 {
                    Err(EvalError::MalformedExpression)
                } else {
                    match eval_step(input[0], stack[stack.len() - 2], stack.last()) {
                        Ok(v) => eval_postfix_from(
                            input.skip(1),
                            stack.drop_last().drop_last().push(v),
                        ),
                        Err(e) => Err(e),
                    }
                }
            },
        }
    }
}

pub open spec fn spec_eval_postfix(input: Seq<Tokens>) -> Result<i64, EvalError> {
    eval_postfix_from(input, Seq::empty())
}

/// The value of a finished infix token stream: reorder to postfix, then
/// reduce with a stack.
pub open spec fn spec_evaluate(tokens: Seq<Tokens>) -> Result<i64, EvalError> {
    spec_eval_postfix(spec_shunting_yard(tokens))
}

fn token_precedence(t: &Tokens) -> (p: u8)
    ensures
        p as int == precedence(*t),
{
    match t {
        Tokens::Add | Tokens::Sub => 1,
        Tokens::Mul | Tokens::Div => 2,
        Tokens::Number(_) => 0,
    }
}

/// Reorder an infix token stream into postfix order, respecting operator
/// precedence and left-to-right associativity within a precedence level.
pub fn shunting_yard(tokens: Vec<Tokens>) -> (r: Vec<Tokens>)
    ensures
        r@ == spec_shunting_yard(tokens@),
{
    let mut output_queue: Vec<Tokens> = Vec::new();
    let mut operator_stack: Vec<Tokens> = Vec::new();

    let n = tokens.len();
    let mut i: usize = 0;
    proof {
        assert(tokens@.skip(0) =~= tokens@);
    }
    while i < n
        invariant
            n == tokens@.len(),
            i <= n,
            sy_run(tokens@.skip(i as int), operator_stack@, output_queue@) == spec_shunting_yard(
                tokens@,
            ),
        decreases n - i,
    {
        let token = tokens[i];
        proof {
            assert(tokens@.skip(i as int)[0] == tokens@[i as int]);
            assert(tokens@.skip(i as int).skip(1) =~= tokens@.skip(i as int + 1));
        }
        match token {
            Tokens::Number(_) => {
                output_queue.push(token);
            },
            _ => {
                let p = token_precedence(&token);
                let ghost stack0 = operator_stack@;
                let ghost out0 = output_queue@;
                while operator_stack.len() > 0 && token_precedence(
                    &operator_stack[operator_stack.len() - 1],
                ) == p
                    invariant
                        sy_drain(operator_stack@, output_queue@, p as int) == sy_drain(
                            stack0,
                            out0,
                            p as int,
                        ),
                    decreases operator_stack.len(),
                {
                    let top = operator_stack.pop().unwrap();
                    output_queue.push(top);
                }
                operator_stack.push(token);
            },
        }
        i = i + 1;
    }
    while operator_stack.len() > 0
        invariant
            sy_flush(operator_stack@, output_queue@) == spec_shunting_yard(tokens@),
        decreases operator_stack.len(),
    {
        let op = operator_stack.pop().unwrap();
        output_queue.push(op);
    }
    output_queue
}

fn apply_token(op: Tokens, x: i64, y: i64) -> (r: Result<i64, EvalError>)
    requires
        is_operator(op),
    ensures
        r == eval_step(op, x, y),
{
    match op {
        Tokens::Add => match x.checked_add(y) {
            Some(v) => Ok(v),
            None => Err(EvalError::Overflow),
        },
        Tokens::Sub => match x.checked_sub(y) {
            Some(v) => Ok(v),
            None => Err(EvalError::Overflow),
        },
        Tokens::Mul => match x.checked_mul(y) {
            Some(v) => Ok(v),
            None => Err(EvalError::Overflow),
        },
        Tokens::Div => {
            if y == 0 {
                Err(EvalError::DivisionByZero)
            } else {
                match x.checked_div(y) {
                    Some(v) => Ok(v),
                    None => Err(EvalError::Overflow),
                }
            }
        },
        Tokens::Number(_) => Err(EvalError::MalformedExpression),
    }
}

/// Reduce a postfix token stream to its single value with a numeric stack.
pub fn evaluate_postfix(tokens: &Vec<Tokens>) -> (r: Result<i64, EvalError>)
    ensures
        r == spec_eval_postfix(tokens@),
{
    let mut stack: Vec<i64> = Vec::new();
    let n = tokens.len();
    let mut i: usize = 0;
    proof {
        assert(tokens@.skip(0) =~= tokens@);
    }
    while i < n
        invariant
            n == tokens@.len(),
            i <= n,
            eval_postfix_from(tokens@.skip(i as int), stack@) == spec_eval_postfix(tokens@),
        decreases n - i,
    {
        let token = tokens[i];
        proof {
            assert(tokens@.skip(i as int)[0] == tokens@[i as int]);
            assert(tokens@.skip(i as int).skip(1) =~= tokens@.skip(i as int + 1));
        }
        match token {
            Tokens::Number(num) => {
                stack.push(num);
            },
            _ => {
                if stack.len() < 2 {
                    return Err(EvalError::MalformedExpression);
                }
                let y = stack.pop().unwrap();
                let x = stack.pop().unwrap();
                match apply_token(token, x, y) {
                    Ok(v) => {
                        stack.push(v);
                    },
                    Err(e) => {
                        return Err(e);
                    },
                }
            },
        }
        i = i + 1;
    }
    if stack.len() == 1 {
        Ok(stack[0])
    } else {
        Err(EvalError::MalformedExpression)
    }
}

/// A finished expression: operands and operators alternate, starting and
/// ending with an operand.
pub open spec fn wf_infix(tokens: Seq<Tokens>) -> bool {
    &&& tokens.len() % 2 == 1
    &&& forall|i: int| 0 <= i < tokens.len() ==> is_operator(#[trigger] tokens[i]) == (i % 2 == 1)
}

pub open spec fn all_operators(s: Seq<Tokens>) -> bool {
    forall|i: int| 0 <= i < s.len() ==> is_operator(#[trigger] s[i])
}

/// How a token stream changes the evaluation stack's size: each operand
/// pushes one value, each operator pops two and pushes one.
pub open spec fn surplus(s: Seq<Tokens>) -> int
    decreases s.len(),
{
    if s.len() == 0 {
        0
    } else {
        (if is_operator(s[0]) {
            -1
        } else {
            1
        }) + surplus(s.skip(1))
    }
}

/// Whether reducing `s` with `k` values already stacked never asks an
/// operator to pop from fewer than two values.
pub open spec fn stack_safe(s: Seq<Tokens>, k: int) -> bool
    decreases s.len(),
{
    if s.len() == 0 {
        true
    } else if is_operator(s[0]) {
        k >= 2 && stack_safe(s.skip(1), k - 1)
    } else {
        stack_safe(s.skip(1), k + 1)
    }
}

proof fn lemma_shape_concat(a: Seq<Tokens>, b: Seq<Tokens>, k: int)
    ensures
        surplus(a + b) == surplus(a) + surplus(b),
        stack_safe(a + b, k) == (stack_safe(a, k) && stack_safe(b, k + surplus(a))),
    decreases a.len(),
{
    if a.len() == 0 {
        assert(a + b =~= b);
    } else {
        assert((a + b)[0] == a[0]);
        assert((a + b).skip(1) =~= a.skip(1) + b);
        if is_operator(a[0]) {
            lemma_shape_concat(a.skip(1), b, k - 1);
        } else {
            lemma_shape_concat(a.skip(1), b, k + 1);
        }
    }
}

proof fn lemma_shape_push(out: Seq<Tokens>, t: Tokens, k: int)
    ensures
        surplus(out.push(t)) == surplus(out) + (if is_operator(t) {
            -1int
        } else {
            1int
        }),
        stack_safe(out.push(t), k) == (stack_safe(out, k) && (is_operator(t) ==> k + surplus(out)
            >= 2)),
{
    assert(out.push(t) =~= out + seq![t]);
    lemma_shape_concat(out, seq![t], k);
    assert(seq![t].skip(1) =~= Seq::<Tokens>::empty());
    assert(surplus(Seq::<Tokens>::empty()) == 0);
    assert(surplus(seq![t]) == (if is_operator(t) {
        -1int
    } else {
        1int
    }));
    assert(stack_safe(Seq::<Tokens>::empty(), k + surplus(out) - 1));
    assert(stack_safe(Seq::<Tokens>::empty(), k + surplus(out) + 1));
    assert(stack_safe(seq![t], k + surplus(out)) == (is_operator(t) ==> k + surplus(out) >= 2));
}

proof fn lemma_flush_shape(stack: Seq<Tokens>, out: Seq<Tokens>)
    requires
        all_operators(stack),
        stack_safe(out, 0),
        surplus(out) == stack.len() + 1,
    ensures
        stack_safe(sy_flush(stack, out), 0),
        surplus(sy_flush(stack, out)) == 1,
    decreases stack.len(),
{
    if stack.len() > 0 {
        let t = stack.last();
        assert(is_operator(t));
        lemma_shape_push(out, t, 0);
        assert(all_operators(stack.drop_last()));
        lemma_flush_shape(stack.drop_last(), out.push(t));
    }
}

proof fn lemma_drain_shape(stack: Seq<Tokens>, out: Seq<Tokens>, p: int)
    requires
        all_operators(stack),
        stack_safe(out, 0),
        surplus(out) == stack.len() + 1,
    ensures
        ({
            let d = sy_drain(stack, out, p);
            all_operators(d.0) && stack_safe(d.1, 0) && surplus(d.1) == d.0.len() + 1
        }),
    decreases stack.len(),
{
    if stack.len() > 0 && precedence(stack.last()) == p {
        let t = stack.last();
        assert(is_operator(t));
        lemma_shape_push(out, t, 0);
        assert(all_operators(stack.drop_last()));
        lemma_drain_shape(stack.drop_last(), out.push(t), p);
    }
}

proof fn lemma_sy_run_shape(input: Seq<Tokens>, stack: Seq<Tokens>, out: Seq<Tokens>)
    requires
        wf_infix(input),
        all_operators(stack),
        stack_safe(out, 0),
        surplus(out) == stack.len(),
    ensures
        stack_safe(sy_run(input, stack, out), 0),
        surplus(sy_run(input, stack, out)) == 1,
    decreases input.len(),
{
    let n = input[0];
    assert(!is_operator(n));
    let out1 = out.push(n);
    lemma_shape_push(out, n, 0);
    assert(sy_run(input, stack, out) == sy_run(input.skip(1), stack, out1));
    if input.len() == 1 {
        assert(input.skip(1) =~= Seq::<Tokens>::empty());
        assert(sy_run(input.skip(1), stack, out1) == sy_flush(stack, out1));
        lemma_flush_shape(stack, out1);
    } else {
        let op = input[1];
        assert(is_operator(op));
        assert(input.skip(1)[0] == op);
        assert(input.skip(1).skip(1) =~= input.skip(2));
        lemma_drain_shape(stack, out1, precedence(op));
        let d = sy_drain(stack, out1, precedence(op));
        let stack2 = d.0.push(op);
        assert(sy_run(input.skip(1), stack, out1) == sy_run(input.skip(2), stack2, d.1));
        assert(all_operators(stack2)) by {
            assert(forall|i: int|
                0 <= i < stack2.len() ==> #[trigger] stack2[i] == (if i < d.0.len() {
                    d.0[i]
                } else {
                    op
                }));
        }
        assert(wf_infix(input.skip(2))) by {
            assert forall|j: int| 0 <= j < input.skip(2).len() implies is_operator(
                #[trigger] input.skip(2)[j],
            ) == (j % 2 == 1) by {
                assert(input.skip(2)[j] == input[j + 2]);
                assert(is_operator(input[j + 2]) == ((j + 2) % 2 == 1));
            }
        }
        lemma_sy_run_shape(input.skip(2), stack2, d.1);
    }
}

proof fn lemma_eval_shape(input: Seq<Tokens>, stack: Seq<i64>)
    requires
        stack_safe(input, stack.len() as int),
        stack.len() + surplus(input) == 1,
    ensures
        eval_postfix_from(input, stack) != Err::<i64, EvalError>(EvalError::MalformedExpression),
    decreases input.len(),
{
    if input.len() > 0 {
        match input[0] {
            Tokens::Number(n) => {
                lemma_eval_shape(input.skip(1), stack.push(n));
            },
            _ => {
                assert(stack.len() >= 2);
                match eval_step(input[0], stack[stack.len() - 2], stack.last()) {
                    Ok(v) => {
                        lemma_eval_shape(input.skip(1), stack.drop_last().drop_last().push(v));
                    },
                    Err(e) => {
                        assert(e != EvalError::MalformedExpression);
                    },
                }
            },
        }
    }
}

/// Law: a well-formed alternating expression never reduces to a
/// malformed-expression error; evaluation yields a value, a division-by-zero
/// error, or an overflow error.
pub proof fn lemma_wf_infix_never_malformed(tokens: Seq<Tokens>)
    requires
        wf_infix(tokens),
    ensures
        spec_evaluate(tokens) != Err::<i64, EvalError>(EvalError::MalformedExpression),
{
    assert(stack_safe(Seq::<Tokens>::empty(), 0));
    lemma_sy_run_shape(tokens, Seq::empty(), Seq::empty());
    lemma_eval_shape(spec_shunting_yard(tokens), Seq::empty());
}

/// Law: reordering an already postfix-free, single-operator infix expression
/// and reducing the result agrees with applying the operator to the two
/// operands directly, error conditions included.
pub proof fn lemma_single_operator_round_trip(a: i64, op: Tokens, b: i64)
    requires
        is_operator(op),
    ensures
        spec_shunting_yard(seq![Tokens::Number(a), op, Tokens::Number(b)]) == seq![
            Tokens::Number(a),
            Tokens::Number(b),
            op,
        ],
        spec_evaluate(seq![Tokens::Number(a), op, Tokens::Number(b)]) == eval_step(op, a, b),
{
    let infix = seq![Tokens::Number(a), op, Tokens::Number(b)];
    let postfix = seq![Tokens::Number(a), Tokens::Number(b), op];
    let empty_t = Seq::<Tokens>::empty();
    let out1 = empty_t.push(Tokens::Number(a));
    let stack1 = empty_t.push(op);
    let out2 = out1.push(Tokens::Number(b));

    assert(infix.skip(1) =~= seq![op, Tokens::Number(b)]);
    assert(seq![op, Tokens::Number(b)].skip(1) =~= seq![Tokens::Number(b)]);
    assert(seq![Tokens::Number(b)].skip(1) =~= empty_t);
    assert(sy_run(infix, empty_t, empty_t) == sy_run(seq![op, Tokens::Number(b)], empty_t, out1));
    assert(sy_drain(empty_t, out1, precedence(op)) == (empty_t, out1));
    assert(sy_run(seq![op, Tokens::Number(b)], empty_t, out1) == sy_run(
        seq![Tokens::Number(b)],
        stack1,
        out1,
    ));
    assert(sy_run(seq![Tokens::Number(b)], stack1, out1) == sy_run(empty_t, stack1, out2));
    assert(sy_run(empty_t, stack1, out2) == sy_flush(stack1, out2));
    assert(stack1.drop_last() =~= empty_t);
    assert(stack1.last() == op);
    assert(sy_flush(stack1, out2) == sy_flush(empty_t, out2.push(op)));
    assert(sy_flush(empty_t, out2.push(op)) == out2.push(op));
    assert(out2.push(op) =~= postfix);
    assert(spec_shunting_yard(infix) == postfix);

    let empty_n = Seq::<i64>::empty();
    let nums = empty_n.push(a).push(b);
    assert(postfix.skip(1) =~= seq![Tokens::Number(b), op]);
    assert(seq![Tokens::Number(b), op].skip(1) =~= seq![op]);
    assert(seq![op].skip(1) =~= empty_t);
    assert(eval_postfix_from(postfix, empty_n) == eval_postfix_from(
        seq![Tokens::Number(b), op],
        empty_n.push(a),
    ));
    assert(eval_postfix_from(seq![Tokens::Number(b), op], empty_n.push(a)) == eval_postfix_from(
        seq![op],
        nums,
    ));
    assert(nums.len() == 2 && nums[nums.len() - 2] == a && nums.last() == b);
    match eval_step(op, a, b) {
        Ok(v) => {
            assert(nums.drop_last().drop_last() =~= empty_n);
            assert(eval_postfix_from(seq![op], nums) == eval_postfix_from(
                empty_t,
                empty_n.push(v),
            ));
            assert(eval_postfix_from(empty_t, empty_n.push(v)) == Ok::<i64, EvalError>(v));
        },
        Err(e) => {
            assert(eval_postfix_from(seq![op], nums) == Err::<i64, EvalError>(e));
        },
    }
}

} // verus!
