//! The reference evaluator: a circuit evaluated on plain bits.
//!
//! Values are small numbers. An input is 0 or 1, a linear combination is
//! computed exactly and has to come out from 0 to 127, and a bootstrap looks
//! the value that it reads up in its table.

use crate::circuit::{Circuit, CircuitView};
use crate::error::{fault, Error, ErrorKind, ErrorView};
use crate::fbs_seq::{find_given, find_input};
use crate::plan::{Plan, Step};
use vstd::prelude::*;

verus! {

/// The reference evaluator.
#[derive(Debug, Default)]
pub struct ClearExec;

/// The number that stands for a bit.
pub open spec fn bit_value(b: bool) -> u8 {
    if b {
        1
    } else {
        0
    }
}

/// The sum of `coefs[r]` times the value of signal `inputs[r]`, over the
/// first `upto` inputs.
pub open spec fn weighted_sum(vals: Seq<u8>, inputs: Seq<usize>, coefs: Seq<i8>, upto: int) -> int
    decreases upto,
{
    if upto <= 0 {
        0
    } else {
        weighted_sum(vals, inputs, coefs, upto - 1) + coefs[upto - 1] * vals[inputs[upto - 1] as int]
    }
}

/// The value of step `k` from the values `vals` of the steps before it and
/// the bits `given` for the inputs, or why it has none: an input without a
/// bit, a linear combination below 0 or above 127, or a table without an
/// entry for the value looked up.
pub open spec fn clear_step(plan: Plan, given: Seq<(String, bool)>, vals: Seq<u8>, k: int) -> Result<
    u8,
    ErrorView,
> {
    let name = plan.names@[k]@;
    match plan.steps@[k] {
        Step::Input => match find_given(given, name, 0) {
            None => Err(fault(ErrorKind::MissingInput, name)),
            Some(i) => Ok(bit_value(given[i].1)),
        },
        Step::LinComb { inputs, coefs, const_coef } => {
            let value = const_coef + weighted_sum(vals, inputs@, coefs@, inputs@.len() as int);
            if value < 0 {
                Err(fault(ErrorKind::NegativeValue, name))
            } else if value > 127 {
                Err(fault(ErrorKind::ValueTooLarge, name))
            } else {
                Ok(value as u8)
            }
        },
        Step::Bootstrap { input, table } => {
            let at = vals[input as int];
            if at >= table@.len() {
                Err(fault(ErrorKind::TableTooShort, name))
            } else {
                Ok(bit_value(table@[at as int]))
            }
        },
    }
}

/// The values of the first `upto` steps, or the error of the first step that
/// has no value.
pub open spec fn clear_values(plan: Plan, given: Seq<(String, bool)>, upto: int) -> Result<
    Seq<u8>,
    ErrorView,
>
    decreases upto,
{
    if upto <= 0 {
        Ok(Seq::empty())
    } else {
        match clear_values(plan, given, upto - 1) {
            Err(e) => Err(e),
            Ok(vals) => match clear_step(plan, given, vals, upto - 1) {
                Err(e) => Err(e),
                Ok(value) => Ok(vals.push(value)),
            },
        }
    }
}

/// The bits of the first `upto` declared outputs, or the first of them whose
/// value is no bit.
pub open spec fn clear_outputs(plan: Plan, vals: Seq<u8>, upto: int) -> Result<Seq<bool>, ErrorView>
    decreases upto,
{
    if upto <= 0 {
        Ok(Seq::empty())
    } else {
        match clear_outputs(plan, vals, upto - 1) {
            Err(e) => Err(e),
            Ok(bits) => {
                let id = plan.outputs@[upto - 1] as int;
                if vals[id] > 1 {
                    Err(fault(ErrorKind::NotBoolean, plan.names@[id]@))
                } else {
                    Ok(bits.push(vals[id] == 1))
                }
            },
        }
    }
}

/// The bits of the declared outputs of a plan on the given input bits.
pub open spec fn clear_run(plan: Plan, given: Seq<(String, bool)>) -> Result<Seq<bool>, ErrorView> {
    match clear_values(plan, given, plan.steps@.len() as int) {
        Err(e) => Err(e),
        Ok(vals) => clear_outputs(plan, vals, plan.outputs@.len() as int),
    }
}

/// Whether `r` is what evaluating the circuit on the given bits gives: the
/// error of the check of its names and order; or else, with the plan of the
/// circuit, the error of the run or the bits of the declared outputs, each
/// under its name and in the order of declaration.
pub open spec fn is_clear_evaluation(
    c: CircuitView,
    given: Seq<(String, bool)>,
    r: Result<Vec<(String, bool)>, Error>,
) -> bool {
    ||| c.check_names() is Err && r is Err && c.check_names() == Err::<(), _>(r->Err_0@)
    ||| c.check_names() is Ok && exists|plan: Plan| #[trigger]
        plan.describes(c) && plan.well_formed() && plan.distinct_names() && match r {
            Err(e) => clear_run(plan, given) == Err::<Seq<bool>, _>(e@),
            Ok(outs) => clear_run(plan, given) matches Ok(bits) && outs@.len() == bits.len()
                && outs@.len() == c.outputs.len() && forall|j: int|
                0 <= j < outs@.len() ==> (#[trigger] outs@[j]).0@ == c.outputs[j] && outs@[j].1
                    == bits[j],
        }
}

impl ClearExec {
    pub fn new() -> (exec: ClearExec) {
        ClearExec
    }

    /// The exact value of a linear combination.
    fn lincomb(vals: &Vec<u8>, inputs: &Vec<usize>, coefs: &Vec<i8>, const_coef: i8) -> (value: i128)
        requires
            inputs@.len() == coefs@.len(),
            forall|r: int| 0 <= r < inputs@.len() ==> #[trigger] inputs@[r] < vals@.len(),
        ensures
            value == const_coef + weighted_sum(vals@, inputs@, coefs@, inputs@.len() as int),
    {
        let mut value: i128 = const_coef as i128;
        let mut r: usize = 0;
        while r < inputs.len()
            invariant
                r <= inputs@.len() == coefs@.len(),
                forall|x: int| 0 <= x < inputs@.len() ==> #[trigger] inputs@[x] < vals@.len(),
                value == const_coef + weighted_sum(vals@, inputs@, coefs@, r as int),
                -128 - r * 0x8000 <= value <= 127 + r * 0x8000,
            decreases inputs@.len() - r,
        {
            let coef = coefs[r];
            assert(inputs@[r as int] < vals@.len());
            let v = vals[inputs[r]];
            assert(-0x8000 <= coef * v <= 0x8000) by (nonlinear_arith)
                requires
                    -128 <= coef <= 127,
                    0 <= v <= 255,
            ;
            value = value + (coef as i128) * (v as i128);
            r += 1;
        }
        value
    }

    /// The values of all signals of a plan on the given input bits, or the
    /// error of the first step that has none. The first entry of `inputs`
    /// under the name of a circuit input is its bit.
    pub fn run(&self, plan: &Plan, inputs: &Vec<(String, bool)>) -> (r: Result<Vec<u8>, Error>)
        requires
            plan.well_formed(),
        ensures
            match r {
                Ok(vals) => vals@.len() == plan.steps@.len() && clear_values(
                    *plan,
                    inputs@,
                    plan.steps@.len() as int,
                ) == Ok::<_, ErrorView>(vals@),
                Err(e) => clear_values(*plan, inputs@, plan.steps@.len() as int) == Err::<
                    Seq<u8>,
                    _,
                >(e@),
            },
    {
        let mut vals: Vec<u8> = Vec::new();
        let mut k: usize = 0;
        while k < plan.steps.len()
            invariant
                k <= plan.steps@.len(),
                plan.well_formed(),
                vals@.len() == k,
                clear_values(*plan, inputs@, k as int) == Ok::<_, ErrorView>(vals@),
            decreases plan.steps@.len() - k,
        {
            assert(crate::plan::step_ok(plan.steps@[k as int], k as int));
            let name = &plan.names[k];
            let value: u8 = match &plan.steps[k] {
                Step::Input => match find_input(inputs, name) {
                    None => {
                        proof {
                            lemma_error_stays(*plan, inputs@, k + 1, plan.steps@.len() as int);
                        }
                        return Err(Error::new(ErrorKind::MissingInput, name.clone()));
                    },
                    Some(i) => if inputs[i].1 {
                        1
                    } else {
                        0
                    },
                },
                Step::LinComb { inputs: ids, coefs, const_coef } => {
                    assert forall|r: int| 0 <= r < ids@.len() implies #[trigger] ids@[r]
                        < vals@.len() by {
                        assert(plan.steps@[k as int].reads()[r] < k);
                    }
                    let value = Self::lincomb(&vals, ids, coefs, *const_coef);
                    if value < 0 {
                        proof {
                            lemma_error_stays(*plan, inputs@, k + 1, plan.steps@.len() as int);
                        }
                        return Err(Error::new(ErrorKind::NegativeValue, name.clone()));
                    } else if value > 127 {
                        proof {
                            lemma_error_stays(*plan, inputs@, k + 1, plan.steps@.len() as int);
                        }
                        return Err(Error::new(ErrorKind::ValueTooLarge, name.clone()));
                    }
                    value as u8
                },
                Step::Bootstrap { input, table } => {
                    assert(plan.steps@[k as int].reads()[0] < k);
                    let at = vals[*input];
                    if at as usize >= table.len() {
                        proof {
                            lemma_error_stays(*plan, inputs@, k + 1, plan.steps@.len() as int);
                        }
                        return Err(Error::new(ErrorKind::TableTooShort, name.clone()));
                    }
                    if table[at as usize] {
                        1
                    } else {
                        0
                    }
                },
            };
            vals.push(value);
            k += 1;
        }
        Ok(vals)
    }

    /// The bits of the declared outputs of the circuit on the given input
    /// bits, each under its name and in the order of declaration; or the
    /// first error: of the check of names and order, then of the steps in order,
    /// then of the outputs in order. The first entry of `inputs` under the
    /// name of a circuit input is its bit.
    pub fn eval(&self, circuit: &Circuit, inputs: &Vec<(String, bool)>) -> (r: Result<
        Vec<(String, bool)>,
        Error,
    >)
        ensures
            is_clear_evaluation(circuit@, inputs@, r),
    {
        let plan = match Plan::build(circuit) {
            Err(e) => {
                return Err(e);
            },
            Ok(plan) => plan,
        };
        let vals = match self.run(&plan, inputs) {
            Err(e) => {
                let r: Result<Vec<(String, bool)>, Error> = Err(e);
                assert(plan.describes(circuit@) && clear_run(plan, inputs@) == Err::<Seq<bool>, _>(
                    e@,
                ));
                return r;
            },
            Ok(vals) => vals,
        };
        let mut outs: Vec<(String, bool)> = Vec::new();
        let ghost mut bits: Seq<bool> = Seq::empty();
        let mut j: usize = 0;
        while j < plan.outputs.len()
            invariant
                j <= plan.outputs@.len() == circuit@.outputs.len(),
                plan.well_formed(),
                plan.distinct_names(),
                plan.describes(circuit@),
                circuit@.check_names() is Ok,
                vals@.len() == plan.steps@.len(),
                clear_values(plan, inputs@, plan.steps@.len() as int) == Ok::<_, ErrorView>(vals@),
                clear_outputs(plan, vals@, j as int) == Ok::<_, ErrorView>(bits),
                outs@.len() == j == bits.len(),
                forall|x: int|
                    0 <= x < j ==> (#[trigger] outs@[x]).0@ == circuit@.outputs[x] && outs@[x].1
                        == bits[x],
            decreases plan.outputs@.len() - j,
        {
            let id = plan.outputs[j];
            assert(plan.outputs@[j as int] < plan.steps@.len());
            let v = vals[id];
            if v > 1 {
                let r: Result<Vec<(String, bool)>, Error> = Err(
                    Error::new(ErrorKind::NotBoolean, plan.names[id].clone()),
                );
                proof {
                    lemma_output_error_stays(plan, vals@, j + 1, plan.outputs@.len() as int);
                    assert(plan.describes(circuit@) && clear_run(plan, inputs@) == Err::<
                        Seq<bool>,
                        _,
                    >(r->Err_0@));
                }
                return r;
            }
            outs.push((plan.names[id].clone(), v == 1));
            proof {
                bits = bits.push(v == 1);
            }
            j += 1;
        }
        let r: Result<Vec<(String, bool)>, Error> = Ok(outs);
        assert(plan.describes(circuit@) && clear_run(plan, inputs@) == Ok::<_, ErrorView>(bits));
        r
    }
}

/// Once a step has no value, the steps after it have none either.
proof fn lemma_error_stays(plan: Plan, given: Seq<(String, bool)>, at: int, upto: int)
    requires
        at <= upto,
        clear_values(plan, given, at) is Err,
    ensures
        clear_values(plan, given, upto) == clear_values(plan, given, at),
    decreases upto - at,
{
    if at < upto {
        lemma_error_stays(plan, given, at, upto - 1);
    }
}

/// Once an output is no bit, that is the error of all outputs.
proof fn lemma_output_error_stays(plan: Plan, vals: Seq<u8>, at: int, upto: int)
    requires
        at <= upto,
        clear_outputs(plan, vals, at) is Err,
    ensures
        clear_outputs(plan, vals, upto) == clear_outputs(plan, vals, at),
    decreases upto - at,
{
    if at < upto {
        lemma_output_error_stays(plan, vals, at, upto - 1);
    }
}

} // verus!
