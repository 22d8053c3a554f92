//! What the executors compute on ciphertexts that anyone can read.
//!
//! A trivial ciphertext has no noise, and the server computes with it
//! exactly. For such ciphertexts the laws of this module hold of every
//! sequence of values that computes each step of a plan from the values that
//! the step reads, in whatever order the steps were taken: the values are
//! determined, and they are the encodings of the values of the reference
//! evaluator.

use crate::ciphertext::{Ciphertext, CiphertextView};
use crate::clear::{bit_value, clear_step, clear_values, weighted_sum};
use crate::error::ErrorView;
use crate::fbs_seq::{find_given, step_fault, step_value, values_read, values_upto};
use crate::plan::{step_ok, Plan, Step};
use crate::server::{
    expected_bit, lemma_linear_sum_of_masks, lemma_lincomb_len, lemma_lincomb_linear,
    lemma_lincomb_noise, lemma_steps, message_sum, reads_as, Server,
};
use crate::shortint::is_trivial;
use crate::task::usable;
use crate::test_vector::{consistent, padded, pair_type, table_type, TestVectorType};
use vstd::prelude::*;

verus! {

// ---------------------------------------------------------------------------
// Trivial ciphertexts stay trivial
// ---------------------------------------------------------------------------

/// The linear combination of trivial ciphertexts is trivial.
pub proof fn lemma_lincomb_of_trivial(
    server: Server,
    cts: Seq<CiphertextView>,
    coefs: Seq<i8>,
    const_coef: i8,
)
    requires
        server.well_formed(),
        cts.len() == coefs.len(),
        forall|i: int| 0 <= i < cts.len() ==> server.fits(#[trigger] cts[i]) && is_trivial(cts[i]),
    ensures
        is_trivial(server.lincomb_spec(cts, coefs, const_coef)),
{
    let n = cts.len() as int;
    let delta = server.delta();
    let acc = server.constant_spec(const_coef);
    let res = server.lincomb_spec(cts, coefs, const_coef);
    server.lemma_moduli_positive();
    lemma_lincomb_len(acc, cts, coefs, delta, n);
    lemma_lincomb_noise(acc, cts, coefs, delta, n);
    assert forall|j: int| 0 <= j < res.lwe.len() - 1 implies #[trigger] res.lwe[j] == 0 by {
        lemma_lincomb_linear(acc, cts, coefs, delta, n, j);
        assert forall|i: int| 0 <= i < cts.len() implies (#[trigger] cts[i]).lwe[j] == 0 by {
            assert(is_trivial(cts[i]));
        }
        lemma_linear_sum_of_masks(cts, coefs, j, n);
    }
}

/// The bootstrap of a trivial ciphertext is trivial.
pub proof fn lemma_bootstrap_of_trivial(
    server: Server,
    val: CiphertextView,
    table: Seq<bool>,
    tv_type: TestVectorType,
)
    requires
        is_trivial(val),
    ensures
        is_trivial(server.readable_bootstrap(val, table, tv_type)),
        server.readable_bootstrap(val, table, tv_type).lwe.len() == val.lwe.len(),
{
}

// ---------------------------------------------------------------------------
// The values of a run are determined
// ---------------------------------------------------------------------------

/// Whether every ciphertext given for an input is trivial.
pub open spec fn all_trivial(given: Seq<(String, Ciphertext)>) -> bool {
    forall|i: int| 0 <= i < given.len() ==> is_trivial((#[trigger] given[i]).1@)
}

proof fn lemma_found_in_range<T>(given: Seq<(String, T)>, name: Seq<char>, from: int)
    requires
        0 <= from,
        find_given(given, name, from) is Some,
    ensures
        from <= find_given(given, name, from)->Some_0 < given.len(),
        given[find_given(given, name, from)->Some_0].0@ == name,
    decreases given.len() - from,
{
    if from < given.len() && given[from].0@ != name {
        lemma_found_in_range(given, name, from + 1);
    }
}

/// Two sequences of values that each compute the first `upto` steps of a
/// plan from trivial input ciphertexts hold the same values, all trivial:
/// the order in which an executor takes the steps makes no difference.
pub proof fn lemma_runs_agree(
    plan: Plan,
    server: Server,
    given: Seq<(String, Ciphertext)>,
    one: Seq<CiphertextView>,
    other: Seq<CiphertextView>,
    upto: int,
)
    requires
        plan.well_formed(),
        server.well_formed(),
        0 <= upto <= plan.steps@.len(),
        all_trivial(given),
        values_upto(plan, server, given, one, upto),
        values_upto(plan, server, given, other, upto),
    ensures
        forall|k: int| 0 <= k < upto ==> #[trigger] one[k] == other[k] && is_trivial(one[k]),
    decreases upto,
{
    if upto > 0 {
        lemma_runs_agree(plan, server, given, one, other, upto - 1);
        let k = upto - 1;
        let step = plan.steps@[k];
        assert(step_ok(step, k));
        assert(step_fault(plan, server, given, k) is None);
        assert(step_value(plan, server, given, one, k) && step_value(plan, server, given, other, k));
        let reads = step.reads();
        assert forall|r: int| 0 <= r < reads.len() implies values_read(plan, one, k)[r]
            == values_read(plan, other, k)[r] && is_trivial(values_read(plan, one, k)[r])
            && usable(server, values_read(plan, one, k)[r]) by {
            assert(reads[r] < k);
            assert(one[reads[r] as int] == other[reads[r] as int]);
            assert(step_fault(plan, server, given, reads[r] as int) is None);
        }
        assert(values_read(plan, one, k) =~= values_read(plan, other, k));
        match step {
            Step::Input => {
                lemma_found_in_range(given, plan.names@[k]@, 0);
            },
            Step::LinComb { inputs, coefs, const_coef } => {
                lemma_lincomb_of_trivial(server, values_read(plan, one, k), coefs@, const_coef);
            },
            Step::Bootstrap { input, table } => {
                assert(values_read(plan, one, k)[0] == one[input as int]);
                lemma_bootstrap_of_trivial(
                    server,
                    values_read(plan, one, k)[0],
                    padded(table@, server.pt_mod as int),
                    table_type(table@, server.pt_mod as int),
                );
            },
        }
    }
}

// ---------------------------------------------------------------------------
// The values of a run encode the values of the reference evaluator
// ---------------------------------------------------------------------------

/// Whether the ciphertexts `given` are readable encodings of the bits `bits`,
/// made for the messages modulo `2p`: wherever a name stands for a bit, it
/// stands for a ciphertext that anyone can read as that bit.
pub open spec fn encodes(server: Server, given: Seq<(String, Ciphertext)>, bits: Seq<(String, bool)>) -> bool {
    forall|name: Seq<char>| #[trigger]
        find_given(bits, name, 0) is Some ==> {
            &&& find_given(given, name, 0) is Some
            &&& reads_as(
                given[find_given(given, name, 0)->Some_0].1@,
                bit_value(bits[find_given(bits, name, 0)->Some_0].1) as int,
                server.delta(),
            )
            &&& given[find_given(given, name, 0)->Some_0].1.message_modulus == 2 * server.pt_mod
        }
}

/// Whether the step is a linear combination whose coefficient at `r` is
/// negative.
pub open spec fn subtracts(step: Step, r: int) -> bool {
    step matches Step::LinComb { coefs, .. } && coefs@[r] < 0
}

/// Whether every linear combination of the plan subtracts circuit inputs
/// only: a reading with a negative coefficient is the reading of an input.
pub open spec fn subtracts_inputs_only(plan: Plan) -> bool {
    forall|k: int, r: int|
        0 <= k < plan.steps@.len() && 0 <= r < plan.steps@[k].reads().len() && subtracts(
            plan.steps@[k],
            r,
        ) ==> plan.steps@[(#[trigger] plan.steps@[k].reads()[r]) as int] is Input
}

proof fn lemma_sums_agree(
    vals: Seq<u8>,
    inputs: Seq<usize>,
    coefs: Seq<i8>,
    msgs: Seq<int>,
    upto: int,
)
    requires
        0 <= upto <= inputs.len() == coefs.len() == msgs.len(),
        forall|r: int| 0 <= r < inputs.len() ==> #[trigger] msgs[r] == vals[inputs[r] as int],
    ensures
        message_sum(coefs, msgs, upto) == weighted_sum(vals, inputs, coefs, upto),
    decreases upto,
{
    if upto > 0 {
        lemma_sums_agree(vals, inputs, coefs, msgs, upto - 1);
        assert(msgs[upto - 1] == vals[inputs[upto - 1] as int]);
    }
}

/// A table that is a test vector stays one when it is filled up, and at
/// every message that it has an entry for it stands for that entry.
proof fn lemma_table_entry(table: Seq<bool>, p: int, msg: int)
    requires
        0 < p,
        table.len() <= 2 * p,
        consistent(table, p),
        0 <= msg < table.len(),
    ensures
        p <= padded(table, p).len() <= 2 * p,
        consistent(padded(table, p), p),
        table_type(padded(table, p), p) == table_type(table, p),
        expected_bit(padded(table, p), table_type(table, p), p, msg) == table[msg],
{
    let full = padded(table, p);
    if table.len() < p {
        assert(full.len() == p);
        assert(full[msg] == table[msg]);
    } else {
        assert(full == table);
        if msg >= p {
            assert(pair_type(table, p, msg) == table_type(table, p));
        }
    }
}

proof fn lemma_values_prefix(plan: Plan, given: Seq<(String, bool)>, at: int, upto: int)
    requires
        0 <= at <= upto,
        clear_values(plan, given, upto) is Ok,
    ensures
        clear_values(plan, given, at) is Ok,
        clear_values(plan, given, at)->Ok_0.len() == at,
        clear_values(plan, given, upto)->Ok_0.len() == upto,
        forall|x: int|
            0 <= x < at ==> clear_values(plan, given, at)->Ok_0[x] == clear_values(
                plan,
                given,
                upto,
            )->Ok_0[x],
    decreases upto,
{
    if upto > 0 {
        if at < upto {
            lemma_values_prefix(plan, given, at, upto - 1);
        } else {
            lemma_values_prefix(plan, given, upto - 1, upto - 1);
        }
    }
}

/// Homomorphic correctness on ciphertexts that anyone can read.
///
/// Let the input ciphertexts be readable encodings of the input bits, let
/// the reference evaluator give every one of the first `upto` steps a value,
/// and let `vals` compute those steps from the ciphertexts. Then anyone can
/// read every `vals[k]` as the value that the reference evaluator gives step
/// `k`.
///
/// The plaintext modulus `p` has to divide 2^62 and must not exceed the size
/// of the look-up table, and the plan must subtract circuit inputs only: a
/// ciphertext that a step has computed is not made for the messages modulo
/// `2p`, and subtracting it adds a correcting term that is no multiple of
/// 2^64.
pub proof fn lemma_homomorphic(
    plan: Plan,
    server: Server,
    given: Seq<(String, Ciphertext)>,
    bits: Seq<(String, bool)>,
    vals: Seq<CiphertextView>,
    upto: int,
)
    requires
        plan.well_formed(),
        server.well_formed(),
        0x8000_0000_0000_0000int % (2 * server.pt_mod) == 0,
        server.pt_mod <= server.polynomial_size,
        0 <= upto <= plan.steps@.len(),
        encodes(server, given, bits),
        subtracts_inputs_only(plan),
        values_upto(plan, server, given, vals, upto),
        clear_values(plan, bits, upto) is Ok,
    ensures
        forall|k: int|
            0 <= k < upto ==> reads_as(
                #[trigger] vals[k],
                clear_values(plan, bits, upto)->Ok_0[k] as int,
                server.delta(),
            ),
    decreases upto,
{
    if upto > 0 {
        let k = upto - 1;
        let m = 0x1_0000_0000_0000_0000int;
        let p = server.pt_mod;
        let delta = server.delta();
        lemma_values_prefix(plan, bits, k, upto);
        lemma_homomorphic(plan, server, given, bits, vals, k);
        let before = clear_values(plan, bits, k)->Ok_0;
        let now = clear_values(plan, bits, upto)->Ok_0;
        assert(clear_step(plan, bits, before, k) == Ok::<u8, ErrorView>(now[k]));
        let step = plan.steps@[k];
        let name = plan.names@[k]@;
        assert(step_ok(step, k));
        assert(step_fault(plan, server, given, k) is None);
        assert(step_value(plan, server, given, vals, k));
        server.lemma_moduli_positive();
        lemma_steps(p);
        let read = values_read(plan, vals, k);
        let reads = step.reads();
        assert forall|r: int| 0 <= r < reads.len() implies reads_as(
            #[trigger] read[r],
            before[reads[r] as int] as int,
            delta,
        ) && usable(server, read[r]) by {
            assert(reads[r] < k);
            assert(reads_as(vals[reads[r] as int], before[reads[r] as int] as int, delta));
            assert(step_fault(plan, server, given, reads[r] as int) is None);
        }
        match step {
            Step::Input => {},
            Step::LinComb { inputs, coefs, const_coef } => {
                let msgs = Seq::new(inputs@.len(), |r: int| before[inputs@[r] as int] as int);
                assert forall|r: int| 0 <= r < read.len() && coefs@[r] < 0 implies (
                #[trigger] read[r]).message_modulus == 2 * p by {
                    let id = inputs@[r] as int;
                    assert(reads[r] < k);
                    assert(subtracts(plan.steps@[k], r));
                    assert(plan.steps@[plan.steps@[k].reads()[r] as int] is Input);
                    assert(step_fault(plan, server, given, id) is None);
                    assert(step_value(plan, server, given, vals, id));
                    assert(clear_step(plan, bits, clear_values(plan, bits, id)->Ok_0, id) is Ok) by {
                        lemma_values_prefix(plan, bits, id + 1, upto);
                    }
                    assert(find_given(bits, plan.names@[id]@, 0) is Some);
                }
                assert forall|r: int| 0 <= r < read.len() implies server.fits(#[trigger] read[r])
                    && reads_as(read[r], msgs[r], delta) by {}
                server.lemma_lincomb_of_readable(read, coefs@, const_coef, msgs);
                lemma_sums_agree(before, inputs@, coefs@, msgs, inputs@.len() as int);
            },
            Step::Bootstrap { input, table } => {
                let at = before[input as int];
                let val = read[0];
                assert(val == vals[input as int]);
                assert(at < table@.len());
                lemma_table_entry(table@, p as int, at as int);
                assert(at * delta < m && at * delta >= 0) by (nonlinear_arith)
                    requires
                        0 <= at < 2 * p,
                        2 * p * delta == m,
                        delta >= 1,
                ;
                assert(val.lwe[val.lwe.len() - 1] == at * delta);
                server.lemma_bootstrap_of_readable(
                    val,
                    padded(table@, p as int),
                    table_type(table@, p as int),
                    at as int,
                );
                assert(delta < m);
            },
        }
    }
}

} // verus!
