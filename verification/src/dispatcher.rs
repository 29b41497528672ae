//! The accumulator/dispatcher: owns the evaluator state (the committed token
//! prefix and the pending operand) and maps each incoming user event to a
//! state transition. The whole behaviour is pinned down by [`spec_step`],
//! the successor-state function that [`Calculator::dispatch`] implements.

use crate::decimal::{decimal_string, digit_char, spec_decimal, spec_digits};
use crate::reducer::{
    div_truncate, evaluate_postfix, in_i64_range, is_operator, lemma_wf_infix_never_malformed,
    shunting_yard, spec_evaluate, wf_infix, EvalError, Tokens,
};
use vstd::prelude::*;

verus! {

/// One user action delivered by the host, exactly one per physical input.
#[derive(Debug, PartialEq, Eq, Structural, Clone, Copy)]
pub enum Events {
    Add,
    Sub,
    Mul,
    Div,
    Neg,
    Number(i64),
    Eq,
    Backspace,
    Reset,
    Idle,
}

/// The evaluator state as contracts see it: the committed token prefix and
/// the operand currently being entered, which doubles as the shown result.
#[verifier::ext_equal]
pub struct CalcView {
    pub tokens: Seq<Tokens>,
    pub pending: i64,
}

/// Pending values at most this large accept another digit; larger typed
/// operands silently ignore further digit entry.
pub const DIGIT_GUARD: i64 = 9_999_999_999;

pub open spec fn is_operator_event(e: Events) -> bool {
    match e {
        Events::Add | Events::Sub | Events::Mul | Events::Div => true,
        _ => false,
    }
}

/// The expression token an operator event commits.
pub open spec fn op_token(e: Events) -> Tokens
    recommends
        is_operator_event(e),
{
    match e {
        Events::Add => Tokens::Add,
        Events::Sub => Tokens::Sub,
        Events::Mul => Tokens::Mul,
        _ => Tokens::Div,
    }
}

/// The pending operand after one digit-entry event: shift left one decimal
/// place and add the digit, unless the entry guard or the machine range
/// forbids it, in which case the event is ignored.
pub open spec fn append_digit(p: i64, d: i64) -> i64 {
    if p <= DIGIT_GUARD && in_i64_range(p * 10) && in_i64_range(p * 10 + d) {
        (p * 10 + d) as i64
    } else {
        p
    }
}

/// The negated pending operand; the one value without a representable
/// negation is kept unchanged.
pub open spec fn negate_pending(p: i64) -> i64 {
    if p == i64::MIN {
        p
    } else {
        (-p) as i64
    }
}

/// The pending operand with its last typed digit removed: division by ten,
/// truncating toward zero.
pub open spec fn drop_last_digit(p: i64) -> i64 {
    div_truncate(p as int, 10) as i64
}

/// The successor state: what one dispatched event does.
///
/// Operator events commit `Number(pending)` and the operator token and reset
/// the pending operand; `Eq` commits `Number(pending)`, reduces the whole
/// stream, shows the result, and clears the tokens. A reduction error (the
/// hardened replacement for aborting) resets the shown value to zero.
pub open spec fn spec_step(s: CalcView, event: Events) -> CalcView {
    match event {
        Events::Idle => s,
        Events::Reset => CalcView { tokens: Seq::empty(), pending: 0 },
        Events::Neg => CalcView { tokens: s.tokens, pending: negate_pending(s.pending) },
        Events::Number(d) => CalcView { tokens: s.tokens, pending: append_digit(s.pending, d) },
        Events::Backspace => CalcView { tokens: s.tokens, pending: drop_last_digit(s.pending) },
        Events::Eq => CalcView {
            tokens: Seq::empty(),
            pending: match spec_evaluate(s.tokens.push(Tokens::Number(s.pending))) {
                Ok(v) => v,
                Err(_) => 0,
            },
        },
        _ => CalcView {
            tokens: s.tokens.push(Tokens::Number(s.pending)).push(op_token(event)),
            pending: 0,
        },
    }
}

/// The dispatcher. It owns the evaluator state; the host feeds it events and
/// reads the display string back.
pub struct Calculator {
    ops: Vec<Tokens>,
    accumulator: i64,
}

impl View for Calculator {
    type V = CalcView;

    closed spec fn view(&self) -> CalcView {
        CalcView { tokens: self.ops@, pending: self.accumulator }
    }
}

impl Default for Calculator {
    /// A fresh calculator: no committed tokens, pending value zero.
    fn default() -> (r: Self)
        ensures
            r@ == (CalcView { tokens: Seq::empty(), pending: 0 }),
    {
        let r = Calculator { ops: Vec::new(), accumulator: 0 };
        proof {
            assert(r@ =~= (CalcView { tokens: Seq::empty(), pending: 0 }));
        }
        r
    }
}

impl Calculator {
    /// Reduce the committed token stream to one value: reorder it into
    /// postfix order, then evaluate with a numeric stack.
    fn calculate(&self) -> (r: Result<i64, EvalError>)
        ensures
            r == spec_evaluate(self.ops@),
    {
        let infix = self.ops.clone();
        proof {
            assert(infix@ =~= self.ops@);
        }
        let postfix = shunting_yard(infix);
        evaluate_postfix(&postfix)
    }

    /// The decimal numeral of the current pending/result value.
    pub fn display(&self) -> (r: String)
        ensures
            r@ == spec_decimal(self@.pending as int),
    {
        decimal_string(self.accumulator)
    }

    /// Apply one user action to the state.
    pub fn dispatch(&mut self, event: Events)
        ensures
            final(self)@ == spec_step(old(self)@, event),
    {
        match event {
            Events::Idle => {
                proof {
                    assert(self@ =~= spec_step(old(self)@, event));
                }
            },
            Events::Eq => {
                self.ops.push(Tokens::Number(self.accumulator));
                let result = self.calculate();
                match result {
                    Ok(v) => {
                        self.accumulator = v;
                    },
                    Err(_) => {
                        self.accumulator = 0;
                    },
                }
                self.ops.clear();
                proof {
                    assert(self@ =~= spec_step(old(self)@, event));
                }
            },
            Events::Reset => {
                self.ops.clear();
                self.accumulator = 0;
                proof {
                    assert(self@ =~= spec_step(old(self)@, event));
                }
            },
            Events::Neg => {
                if self.accumulator != i64::MIN {
                    self.accumulator = -self.accumulator;
                }
                proof {
                    assert(self@ =~= spec_step(old(self)@, event));
                }
            },
            Events::Number(num) => {
                if self.accumulator <= DIGIT_GUARD {
                    match self.accumulator.checked_mul(10) {
                        Some(m) => {
                            match m.checked_add(num) {
                                Some(v) => {
                                    self.accumulator = v;
                                },
                                None => {},
                            }
                        },
                        None => {},
                    }
                }
                proof {
                    assert(self@ =~= spec_step(old(self)@, event));
                }
            },
            Events::Backspace => {
                let a = self.accumulator;
                if a >= 0 {
                    self.accumulator = ((a as u64) / 10) as i64;
                } else {
                    let m: u64 = ((-(a + 1)) as u64) + 1;
                    let q: u64 = m / 10;
                    proof {
                        assert(m as int == -(a as int));
                        assert(q as int == (-(a as int)) / 10);
                    }
                    self.accumulator = -(q as i64);
                }
                proof {
                    assert(self@ =~= spec_step(old(self)@, event));
                }
            },
            Events::Add | Events::Sub | Events::Mul | Events::Div => {
                let token = match event {
                    Events::Add => Tokens::Add,
                    Events::Sub => Tokens::Sub,
                    Events::Mul => Tokens::Mul,
                    _ => Tokens::Div,
                };
                self.ops.push(Tokens::Number(self.accumulator));
                self.ops.push(token);
                self.accumulator = 0;
                proof {
                    assert(token == op_token(event));
                    assert(self@ =~= spec_step(old(self)@, event));
                }
            },
        }
    }
}

/// The state after a whole sequence of events, dispatched in order.
pub open spec fn run_events(s: CalcView, events: Seq<Events>) -> CalcView
    decreases events.len(),
{
    if events.len() == 0 {
        s
    } else {
        run_events(spec_step(s, events[0]), events.skip(1))
    }
}

/// The value a digit string denotes in decimal, most significant first.
pub open spec fn digits_value(ds: Seq<i64>) -> int
    decreases ds.len(),
{
    if ds.len() == 0 {
        0
    } else {
        digits_value(ds.drop_last()) * 10 + ds.last()
    }
}

pub open spec fn all_digits(ds: Seq<i64>) -> bool {
    forall|i: int| 0 <= i < ds.len() ==> 0 <= #[trigger] ds[i] <= 9
}

pub open spec fn digit_events(ds: Seq<i64>) -> Seq<Events> {
    ds.map_values(|d: i64| Events::Number(d))
}

/// The documented invariant on the committed prefix: operands and operators
/// alternate, and the sequence ends with an operator whenever it is
/// non-empty.
pub open spec fn wf_tokens(tokens: Seq<Tokens>) -> bool {
    &&& tokens.len() % 2 == 0
    &&& forall|i: int| 0 <= i < tokens.len() ==> is_operator(#[trigger] tokens[i]) == (i % 2 == 1)
}

/// Law: `Idle` is a no-op; it never mutates the state.
pub proof fn lemma_idle_noop(s: CalcView)
    ensures
        spec_step(s, Events::Idle) == s,
{
}

/// Law: once the pending operand has grown past the entry guard, further
/// digit events are silently ignored.
pub proof fn lemma_digit_guard_caps_entry(s: CalcView, d: i64)
    requires
        s.pending > DIGIT_GUARD,
    ensures
        spec_step(s, Events::Number(d)) == s,
{
    assert(spec_step(s, Events::Number(d)) =~= s);
}

/// Law: negating the pending operand twice returns to the original state.
pub proof fn lemma_neg_involution(s: CalcView)
    ensures
        spec_step(spec_step(s, Events::Neg), Events::Neg) == s,
{
    assert(spec_step(spec_step(s, Events::Neg), Events::Neg) =~= s);
}

/// Law: Reset clears both the committed tokens and the pending value,
/// whatever the prior state was.
pub proof fn lemma_reset_clears(s: CalcView)
    ensures
        spec_step(s, Events::Reset).tokens == Seq::<Tokens>::empty(),
        spec_step(s, Events::Reset).pending == 0,
{
}

/// Law: Backspace divides the pending operand by ten, truncating toward
/// zero, and leaves the committed tokens alone.
pub proof fn lemma_backspace_drops_digit(s: CalcView)
    ensures
        spec_step(s, Events::Backspace).pending == div_truncate(s.pending as int, 10),
        spec_step(s, Events::Backspace).tokens == s.tokens,
{
}

/// Law: an operator pressed when no tokens are committed (as right after
/// `Eq`, when the result `r` is pending) starts a new expression with `r`
/// as its left operand.
pub proof fn lemma_operator_chains_result(r: i64, event: Events)
    requires
        is_operator_event(event),
    ensures
        spec_step(CalcView { tokens: Seq::empty(), pending: r }, event) == (CalcView {
            tokens: seq![Tokens::Number(r), op_token(event)],
            pending: 0,
        }),
{
    assert(Seq::empty().push(Tokens::Number(r)).push(op_token(event)) =~= seq![
        Tokens::Number(r),
        op_token(event),
    ]);
    assert(spec_step(CalcView { tokens: Seq::empty(), pending: r }, event) =~= (CalcView {
        tokens: seq![Tokens::Number(r), op_token(event)],
        pending: 0,
    }));
}

/// Law (restricted): entering a digit while the shown result is zero starts
/// the fresh operand at exactly that digit. A non-zero shown result instead
/// takes further digits as appended to it, per the successor-state function.
pub proof fn lemma_digit_after_zero_result(tokens: Seq<Tokens>, d: i64)
    requires
        0 <= d <= 9,
    ensures
        spec_step(CalcView { tokens, pending: 0 }, Events::Number(d)).pending == d,
{
}

proof fn lemma_run_events_push(s: CalcView, events: Seq<Events>, e: Events)
    ensures
        run_events(s, events.push(e)) == spec_step(run_events(s, events), e),
    decreases events.len(),
{
    if events.len() == 0 {
        assert(events.push(e)[0] == e);
        assert(events.push(e).skip(1) =~= Seq::<Events>::empty());
        assert(run_events(s, events.push(e)) == run_events(
            spec_step(s, e),
            Seq::<Events>::empty(),
        ));
        assert(run_events(s, events) == s);
    } else {
        assert(events.push(e)[0] == events[0]);
        assert(events.push(e).skip(1) =~= events.skip(1).push(e));
        assert(run_events(s, events.push(e)) == run_events(
            spec_step(s, events[0]),
            events.skip(1).push(e),
        ));
        assert(run_events(s, events) == run_events(spec_step(s, events[0]), events.skip(1)));
        lemma_run_events_push(spec_step(s, events[0]), events.skip(1), e);
    }
}

proof fn lemma_digits_value_nonneg(ds: Seq<i64>)
    requires
        all_digits(ds),
    ensures
        digits_value(ds) >= 0,
    decreases ds.len(),
{
    if ds.len() > 0 {
        assert(all_digits(ds.drop_last()));
        lemma_digits_value_nonneg(ds.drop_last());
    }
}

/// Law: digit entry accumulates the decimal value of the typed digit string,
/// for as long as each already-entered prefix is within the entry guard.
pub proof fn lemma_digit_entry(s: CalcView, ds: Seq<i64>)
    requires
        s.pending == 0,
        all_digits(ds),
        forall|i: int| 0 <= i < ds.len() ==> digits_value(#[trigger] ds.take(i)) <= DIGIT_GUARD,
    ensures
        run_events(s, digit_events(ds)) == (CalcView {
            tokens: s.tokens,
            pending: digits_value(ds) as i64,
        }),
    decreases ds.len(),
{
    if ds.len() == 0 {
        assert(digit_events(ds) =~= Seq::<Events>::empty());
        assert(run_events(s, digit_events(ds)) =~= (CalcView {
            tokens: s.tokens,
            pending: digits_value(ds) as i64,
        }));
    } else {
        let ds0 = ds.drop_last();
        let d = ds.last();
        assert(all_digits(ds0));
        assert forall|i: int| 0 <= i < ds0.len() implies digits_value(#[trigger] ds0.take(i))
            <= DIGIT_GUARD by {
            assert(ds0.take(i) =~= ds.take(i));
        }
        lemma_digit_entry(s, ds0);
        assert(digit_events(ds) =~= digit_events(ds0).push(Events::Number(d)));
        lemma_run_events_push(s, digit_events(ds0), Events::Number(d));
        let v0 = digits_value(ds0);
        lemma_digits_value_nonneg(ds0);
        assert(ds.take(ds.len() - 1) =~= ds0);
        assert(v0 <= DIGIT_GUARD);
        assert(run_events(s, digit_events(ds)) =~= (CalcView {
            tokens: s.tokens,
            pending: digits_value(ds) as i64,
        }));
    }
}

/// The characters of a typed digit string, in typing order.
pub open spec fn digit_chars(ds: Seq<i64>) -> Seq<char> {
    ds.map_values(|d: i64| digit_char(d as int))
}

proof fn lemma_digits_value_positive(ds: Seq<i64>)
    requires
        all_digits(ds),
        ds.len() > 0,
        ds[0] >= 1,
    ensures
        digits_value(ds) >= 1,
    decreases ds.len(),
{
    if ds.len() == 1 {
        assert(ds.drop_last().len() == 0);
        assert(digits_value(ds.drop_last()) == 0);
        assert(digits_value(ds) == ds[0]);
    } else {
        let ds0 = ds.drop_last();
        assert(all_digits(ds0));
        assert(ds0[0] == ds[0]);
        lemma_digits_value_positive(ds0);
    }
}

proof fn lemma_decimal_of_digits(ds: Seq<i64>)
    requires
        all_digits(ds),
        ds.len() > 0,
        ds[0] != 0 || ds.len() == 1,
    ensures
        spec_digits(digits_value(ds) as nat) == digit_chars(ds),
    decreases ds.len(),
{
    lemma_digits_value_nonneg(ds);
    if ds.len() == 1 {
        assert(ds.drop_last().len() == 0);
        assert(digits_value(ds.drop_last()) == 0);
        assert(digits_value(ds) == ds[0]);
        assert(spec_digits(ds[0] as nat) =~= digit_chars(ds));
    } else {
        let ds0 = ds.drop_last();
        let d = ds.last();
        assert(all_digits(ds0));
        assert(ds0[0] == ds[0]);
        lemma_digits_value_positive(ds0);
        lemma_decimal_of_digits(ds0);
        let v0 = digits_value(ds0);
        let v = digits_value(ds);
        assert(v == v0 * 10 + d);
        assert(v >= 10);
        assert((v as nat) / 10 == v0 as nat);
        assert((v as nat) % 10 == d as nat);
        assert(spec_digits(v as nat) == spec_digits(v0 as nat).push(digit_char(d as int)));
        assert(digit_chars(ds0).push(digit_char(d as int)) =~= digit_chars(ds));
    }
}

/// Law: after entering a digit string with no leading zero (each typed
/// prefix within the entry guard), the display shows exactly the typed
/// digit characters.
pub proof fn lemma_display_shows_entered_digits(s: CalcView, ds: Seq<i64>)
    requires
        s.pending == 0,
        all_digits(ds),
        ds.len() > 0,
        ds[0] != 0 || ds.len() == 1,
        forall|i: int| 0 <= i < ds.len() ==> digits_value(#[trigger] ds.take(i)) <= DIGIT_GUARD,
    ensures
        spec_decimal(run_events(s, digit_events(ds)).pending as int) == digit_chars(ds),
{
    lemma_digit_entry(s, ds);
    lemma_digits_value_nonneg(ds);
    lemma_decimal_of_digits(ds);
}

/// Law: every event preserves the committed-prefix invariant; in particular
/// the stream handed to the reducer by `Eq` always alternates operand and
/// operator, starting and ending with an operand.
pub proof fn lemma_step_preserves_wf(s: CalcView, event: Events)
    requires
        wf_tokens(s.tokens),
    ensures
        wf_tokens(spec_step(s, event).tokens),
{
    if is_operator_event(event) {
        let t2 = spec_step(s, event).tokens;
        assert(t2.len() == s.tokens.len() + 2);
        assert forall|i: int| 0 <= i < t2.len() implies is_operator(#[trigger] t2[i]) == (i % 2
            == 1) by {
            if i < s.tokens.len() {
                assert(t2[i] == s.tokens[i]);
            } else if i == s.tokens.len() {
                assert(t2[i] == Tokens::Number(s.pending));
            } else {
                assert(t2[i] == op_token(event));
            }
        }
    }
}

/// Law: dispatching any event sequence from a well-formed state leaves the
/// committed prefix well-formed; with the fresh state this covers every
/// state reachable through the public interface.
pub proof fn lemma_run_preserves_wf(s: CalcView, events: Seq<Events>)
    requires
        wf_tokens(s.tokens),
    ensures
        wf_tokens(run_events(s, events).tokens),
    decreases events.len(),
{
    if events.len() > 0 {
        lemma_step_preserves_wf(s, events[0]);
        lemma_run_preserves_wf(spec_step(s, events[0]), events.skip(1));
    }
}

/// Law: in a well-formed state, `Eq` hands the reducer a stream that can
/// only report division by zero or overflow, never a malformed expression:
/// the reducer's defensive check stays unreachable through the public event
/// interface.
pub proof fn lemma_eq_never_malformed(s: CalcView)
    requires
        wf_tokens(s.tokens),
    ensures
        spec_evaluate(s.tokens.push(Tokens::Number(s.pending))) != Err::<i64, EvalError>(
            EvalError::MalformedExpression,
        ),
{
    let full = s.tokens.push(Tokens::Number(s.pending));
    assert(wf_infix(full)) by {
        assert forall|i: int| 0 <= i < full.len() implies is_operator(#[trigger] full[i]) == (i % 2
            == 1) by {
            if i < s.tokens.len() {
                assert(full[i] == s.tokens[i]);
            } else {
                assert(full[i] == Tokens::Number(s.pending));
            }
        }
    }
    lemma_wf_infix_never_malformed(full);
}

} // verus!

