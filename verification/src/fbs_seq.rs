//! The sequential executor: the steps of a plan run one after the other, each
//! ciphertext kept only as long as something still has to read it.
//!
//! Before the run every signal gets a count: once for every reading of it by
//! a step, and once more if it is a declared output. A reading takes one off
//! the count, and a ciphertext whose count reaches 0 is dropped. At the end
//! exactly the declared outputs are left.

use crate::ciphertext::{Ciphertext, CiphertextView};
use crate::circuit::{Circuit, Name};
use crate::error::{fault, Error, ErrorKind, ErrorView};
use crate::plan::{Plan, Step};
use crate::server::{views_of, Server};
use crate::task::{run_task, task_fault, task_result, usable};
use vstd::prelude::*;

verus! {

// ---------------------------------------------------------------------------
// Counting the readings of a signal
// ---------------------------------------------------------------------------

/// How many of the first `upto` entries of `reads` are the signal `s`.
pub open spec fn count_in(reads: Seq<usize>, s: int, upto: int) -> nat
    decreases upto,
{
    if upto <= 0 {
        0
    } else {
        count_in(reads, s, upto - 1) + if reads[upto - 1] == s {
            1nat
        } else {
            0nat
        }
    }
}

/// How often the first `upto` steps read the signal `s`.
pub open spec fn readings(steps: Seq<Step>, s: int, upto: int) -> nat
    decreases upto,
{
    if upto <= 0 {
        0
    } else {
        readings(steps, s, upto - 1) + count_in(
            steps[upto - 1].reads(),
            s,
            steps[upto - 1].reads().len() as int,
        )
    }
}

impl Plan {
    /// Whether the signal `s` is a declared output.
    pub open spec fn is_output(&self, s: int) -> bool {
        exists|j: int| 0 <= j < self.outputs@.len() && self.outputs@[j] == s
    }

    /// The count that the signal `s` starts with: its readings by all steps,
    /// and one more if it is a declared output.
    pub open spec fn successors(&self, s: int) -> nat {
        readings(self.steps@, s, self.steps@.len() as int) + if self.is_output(s) {
            1nat
        } else {
            0nat
        }
    }

    /// The count that the signal `s` has left when the first `upto` steps
    /// have run.
    pub open spec fn remaining(&self, s: int, upto: int) -> int {
        self.successors(s) - readings(self.steps@, s, upto)
    }
}

/// Counting further never counts less, and never more than there are
/// readings.
proof fn lemma_count_in_bounds(reads: Seq<usize>, s: int, from: int, upto: int)
    requires
        0 <= from <= upto <= reads.len(),
    ensures
        count_in(reads, s, from) <= count_in(reads, s, upto) <= upto,
    decreases upto,
{
    if from < upto {
        lemma_count_in_bounds(reads, s, from, upto - 1);
    } else if upto > 0 {
        lemma_count_in_bounds(reads, s, upto - 1, upto - 1);
    }
}

/// A signal that is not read at all is counted 0 times.
proof fn lemma_count_in_absent(reads: Seq<usize>, s: int, upto: int)
    requires
        0 <= upto <= reads.len(),
        forall|r: int| 0 <= r < upto ==> reads[r] != s,
    ensures
        count_in(reads, s, upto) == 0,
    decreases upto,
{
    if upto > 0 {
        lemma_count_in_absent(reads, s, upto - 1);
    }
}

/// A step has no more readings than a vector has room for.
proof fn lemma_reads_len(step: Step)
    ensures
        step.reads().len() <= usize::MAX,
{
    match step {
        Step::LinComb { inputs, .. } => {
            assert(inputs.len() == inputs@.len());
        },
        _ => {},
    }
}

/// Counting further steps never counts less, and every step adds less than
/// 2^64.
proof fn lemma_readings_bounds(steps: Seq<Step>, s: int, from: int, upto: int)
    requires
        0 <= from <= upto <= steps.len(),
    ensures
        readings(steps, s, from) <= readings(steps, s, upto) <= upto * 0x1_0000_0000_0000_0000,
    decreases upto,
{
    if upto > 0 {
        let reads = steps[upto - 1].reads();
        lemma_reads_len(steps[upto - 1]);
        lemma_count_in_bounds(reads, s, 0, reads.len() as int);
        if from < upto {
            lemma_readings_bounds(steps, s, from, upto - 1);
        } else {
            lemma_readings_bounds(steps, s, upto - 1, upto - 1);
        }
    }
}

/// A step reads only signals before it, so the first `upto` steps do not
/// read the signals from `upto` on.
proof fn lemma_no_readings_ahead(plan: Plan, s: int, upto: int)
    requires
        plan.well_formed(),
        0 <= upto <= plan.steps@.len(),
        upto <= s + 1,
    ensures
        readings(plan.steps@, s, upto) == 0,
    decreases upto,
{
    if upto > 0 {
        lemma_no_readings_ahead(plan, s, upto - 1);
        let step = plan.steps@[upto - 1];
        assert(crate::plan::step_ok(step, upto - 1));
        lemma_count_in_absent(step.reads(), s, step.reads().len() as int);
    }
}

/// The reading at `at` is not yet counted among the first `at` readings.
proof fn lemma_count_in_next(reads: Seq<usize>, at: int)
    requires
        0 <= at < reads.len(),
    ensures
        count_in(reads, reads[at] as int, at) < count_in(
            reads,
            reads[at] as int,
            reads.len() as int,
        ),
{
    lemma_count_in_bounds(reads, reads[at] as int, at + 1, reads.len() as int);
}

/// A signal has at least the readings of one step left when that step is
/// about to run.
proof fn lemma_pending(plan: Plan, s: int, k: int)
    requires
        0 <= k < plan.steps@.len(),
    ensures
        plan.remaining(s, k) >= count_in(
            plan.steps@[k].reads(),
            s,
            plan.steps@[k].reads().len() as int,
        ),
        plan.remaining(s, k + 1) == plan.remaining(s, k) - count_in(
            plan.steps@[k].reads(),
            s,
            plan.steps@[k].reads().len() as int,
        ),
        plan.remaining(s, k + 1) >= 0,
{
    lemma_readings_bounds(plan.steps@, s, k + 1, plan.steps@.len() as int);
}

// ---------------------------------------------------------------------------
// What a run computes
// ---------------------------------------------------------------------------

/// The index of the first entry of `given`, from `from` on, under `name`.
pub open spec fn find_given<T>(given: Seq<(String, T)>, name: Name, from: int) -> Option<int>
    decreases given.len() - from,
{
    if from < 0 || from >= given.len() {
        None
    } else if given[from].0@ == name {
        Some(from)
    } else {
        find_given(given, name, from + 1)
    }
}

/// The index of the first entry of `given` under `name`.
pub fn find_input<T>(given: &Vec<(String, T)>, name: &String) -> (r: Option<usize>)
    ensures
        match r {
            Some(i) => i < given@.len() && find_given(given@, name@, 0) == Some(i as int),
            None => find_given(given@, name@, 0) is None,
        },
{
    let mut i: usize = 0;
    while i < given.len()
        invariant
            i <= given@.len(),
            find_given(given@, name@, 0) == find_given(given@, name@, i as int),
        decreases given@.len() - i,
    {
        if given[i].0 == *name {
            return Some(i);
        }
        i += 1;
    }
    None
}

/// Why step `k` cannot run, if it cannot: an input without a usable
/// ciphertext among `given`, or a step that cannot compute.
pub open spec fn step_fault(
    plan: Plan,
    server: Server,
    given: Seq<(String, Ciphertext)>,
    k: int,
) -> Option<ErrorView> {
    let name = plan.names@[k]@;
    match plan.steps@[k] {
        Step::Input => match find_given(given, name, 0) {
            None => Some(fault(ErrorKind::MissingInput, name)),
            Some(i) => if usable(server, given[i].1@) {
                None
            } else {
                Some(fault(ErrorKind::InputMismatch, name))
            },
        },
        step => task_fault(server, step),
    }
}

/// The values that step `k` reads, in the order of its readings.
pub open spec fn values_read(plan: Plan, vals: Seq<CiphertextView>, k: int) -> Seq<CiphertextView> {
    let reads = plan.steps@[k].reads();
    Seq::new(reads.len(), |r: int| vals[reads[r] as int])
}

/// Whether `vals[k]` is a value that step `k` can give from the values
/// before it: the ciphertext given for an input, or else what the step
/// computes from the values that it reads.
pub open spec fn step_value(
    plan: Plan,
    server: Server,
    given: Seq<(String, Ciphertext)>,
    vals: Seq<CiphertextView>,
    k: int,
) -> bool {
    match plan.steps@[k] {
        Step::Input => find_given(given, plan.names@[k]@, 0) matches Some(i) && vals[k]
            == given[i].1@,
        step => task_result(server, step, values_read(plan, vals, k), vals[k]),
    }
}

/// Whether the first `upto` steps can run and `vals` holds a value of each.
pub open spec fn values_upto(
    plan: Plan,
    server: Server,
    given: Seq<(String, Ciphertext)>,
    vals: Seq<CiphertextView>,
    upto: int,
) -> bool {
    &&& vals.len() >= upto
    &&& forall|k: int|
        0 <= k < upto ==> #[trigger] step_fault(plan, server, given, k) is None && step_value(
            plan,
            server,
            given,
            vals,
            k,
        ) && usable(server, vals[k])
}

/// The value of a step depends only on the values up to its own.
proof fn lemma_step_value_stable(
    plan: Plan,
    server: Server,
    given: Seq<(String, Ciphertext)>,
    vals: Seq<CiphertextView>,
    longer: Seq<CiphertextView>,
    k: int,
)
    requires
        plan.well_formed(),
        0 <= k < plan.steps@.len(),
        k < vals.len() <= longer.len(),
        forall|x: int| 0 <= x <= k ==> vals[x] == longer[x],
    ensures
        step_value(plan, server, given, vals, k) == step_value(plan, server, given, longer, k),
{
    assert(crate::plan::step_ok(plan.steps@[k], k));
    let reads = plan.steps@[k].reads();
    assert forall|r: int| 0 <= r < reads.len() implies vals[reads[r] as int] == longer[reads[r] as int] by {
        assert(reads[r] < k);
    }
    assert(values_read(plan, vals, k) =~= values_read(plan, longer, k));
}

// ---------------------------------------------------------------------------
// The store
// ---------------------------------------------------------------------------

/// The ciphertexts that a run holds, one slot per signal, each with the count
/// of the readings that it still waits for.
pub struct CiphertextStore {
    pub slots: Vec<Option<Ciphertext>>,
    pub ref_cnt: Vec<u128>,
}

impl CiphertextStore {
    /// A slot holds a ciphertext exactly while its count is not 0.
    pub open spec fn well_formed(&self) -> bool {
        &&& self.slots@.len() == self.ref_cnt@.len()
        &&& forall|s: int|
            0 <= s < self.slots@.len() ==> (#[trigger] self.slots@[s] is Some <==> self.ref_cnt@[s]
                > 0)
    }

    /// An empty store with `n` slots.
    pub fn new(n: usize) -> (store: CiphertextStore)
        ensures
            store.well_formed(),
            store.slots@.len() == n,
            forall|s: int| 0 <= s < n ==> #[trigger] store.ref_cnt@[s] == 0,
    {
        let mut store = CiphertextStore { slots: Vec::new(), ref_cnt: Vec::new() };
        while store.slots.len() < n
            invariant
                store.well_formed(),
                store.slots@.len() <= n,
                forall|s: int| 0 <= s < store.slots@.len() ==> #[trigger] store.ref_cnt@[s] == 0,
            decreases n - store.slots@.len(),
        {
            store.slots.push(None);
            store.ref_cnt.push(0);
        }
        store
    }

    /// Puts a ciphertext into the empty slot `s`, to be read `nb_succ` times.
    /// A ciphertext that nothing will read is dropped at once.
    pub fn add(&mut self, s: usize, ct: Ciphertext, nb_succ: u128)
        requires
            old(self).well_formed(),
            s < old(self).slots@.len(),
            old(self).ref_cnt@[s as int] == 0,
        ensures
            final(self).well_formed(),
            final(self).ref_cnt@ == old(self).ref_cnt@.update(s as int, nb_succ),
            final(self).slots@ == old(self).slots@.update(
                s as int,
                if nb_succ > 0 {
                    Some(ct)
                } else {
                    None
                },
            ),
    {
        self.ref_cnt.set(s, nb_succ);
        if nb_succ > 0 {
            self.slots.set(s, Some(ct));
        }
        assert(self.slots@ =~= old(self).slots@.update(
            s as int,
            if nb_succ > 0 {
                Some(ct)
            } else {
                None
            },
        ));
    }

    /// The ciphertext in slot `s`, if the slot holds one.
    pub fn get(&self, s: usize) -> (r: Option<&Ciphertext>)
        requires
            s < self.slots@.len(),
        ensures
            match r {
                Some(ct) => self.slots@[s as int] == Some(*ct),
                None => self.slots@[s as int] is None,
            },
    {
        self.slots[s].as_ref()
    }

    /// Counts one reading of slot `s`, and drops its ciphertext if that was
    /// the last.
    pub fn unref(&mut self, s: usize)
        requires
            old(self).well_formed(),
            s < old(self).slots@.len(),
            old(self).ref_cnt@[s as int] > 0,
        ensures
            final(self).well_formed(),
            final(self).ref_cnt@ == old(self).ref_cnt@.update(
                s as int,
                (old(self).ref_cnt@[s as int] - 1) as u128,
            ),
            final(self).slots@ == old(self).slots@.update(
                s as int,
                if old(self).ref_cnt@[s as int] > 1 {
                    old(self).slots@[s as int]
                } else {
                    None
                },
            ),
    {
        let left = self.ref_cnt[s] - 1;
        self.ref_cnt.set(s, left);
        if left == 0 {
            self.slots.set(s, None);
        }
        assert(self.slots@ =~= old(self).slots@.update(
            s as int,
            if old(self).ref_cnt@[s as int] > 1 {
                old(self).slots@[s as int]
            } else {
                None
            },
        ));
    }

    /// Counts every reading of `reads`.
    pub fn unref_all(&mut self, reads: &Vec<usize>)
        requires
            old(self).well_formed(),
            forall|r: int| 0 <= r < reads@.len() ==> #[trigger] reads@[r] < old(self).slots@.len(),
            forall|s: int|
                0 <= s < old(self).slots@.len() ==> #[trigger] old(self).ref_cnt@[s] >= count_in(
                    reads@,
                    s,
                    reads@.len() as int,
                ),
        ensures
            final(self).well_formed(),
            final(self).slots@.len() == old(self).slots@.len(),
            forall|s: int|
                0 <= s < old(self).slots@.len() ==> #[trigger] final(self).ref_cnt@[s] == old(self).ref_cnt@[s] - count_in(reads@, s, reads@.len() as int),
            forall|s: int|
                0 <= s < old(self).slots@.len() ==> #[trigger] final(self).slots@[s] == if final(self).ref_cnt@[s] > 0 {
                    old(self).slots@[s]
                } else {
                    None
                },
    {
        let mut r: usize = 0;
        while r < reads.len()
            invariant
                r <= reads@.len(),
                self.well_formed(),
                old(self).well_formed(),
                self.slots@.len() == old(self).slots@.len(),
                forall|x: int| 0 <= x < reads@.len() ==> #[trigger] reads@[x] < self.slots@.len(),
                forall|s: int|
                    0 <= s < old(self).slots@.len() ==> #[trigger] old(self).ref_cnt@[s]
                        >= count_in(reads@, s, reads@.len() as int),
                forall|s: int|
                    0 <= s < self.slots@.len() ==> #[trigger] self.ref_cnt@[s] == old(self).ref_cnt@[s] - count_in(reads@, s, r as int),
                forall|s: int|
                    0 <= s < self.slots@.len() ==> #[trigger] self.slots@[s] == if self.ref_cnt@[s]
                        > 0 {
                        old(self).slots@[s]
                    } else {
                        None
                    },
            decreases reads@.len() - r,
        {
            let id = reads[r];
            proof {
                assert(reads@[r as int] < self.slots@.len());
                lemma_count_in_next(reads@, r as int);
                assert(old(self).ref_cnt@[id as int] >= count_in(
                    reads@,
                    id as int,
                    reads@.len() as int,
                ));
            }
            self.unref(id);
            r += 1;
        }
    }
}

// ---------------------------------------------------------------------------
// The run
// ---------------------------------------------------------------------------

/// What holds of the store when the first `k` steps have run: every signal
/// defined so far has the count that it has left, and a slot that holds a
/// ciphertext holds the value of its signal.
pub open spec fn store_at(plan: Plan, store: CiphertextStore, vals: Seq<CiphertextView>, k: int) -> bool {
    &&& store.well_formed()
    &&& store.slots@.len() == plan.steps@.len()
    &&& vals.len() == k
    &&& forall|s: int|
        0 <= s < plan.steps@.len() ==> #[trigger] store.ref_cnt@[s] == if s < k {
            plan.remaining(s, k)
        } else {
            0
        }
    &&& forall|s: int|
        0 <= s < plan.steps@.len() ==> (#[trigger] store.slots@[s] matches Some(ct) ==> s < k
            && ct@ == vals[s])
}

/// Whether `store` is what a run of the plan leaves, with `vals` the values
/// of the signals: every step ran, and exactly the declared outputs are
/// still held, each with its value.
pub open spec fn is_run(
    plan: Plan,
    server: Server,
    given: Seq<(String, Ciphertext)>,
    vals: Seq<CiphertextView>,
    store: CiphertextStore,
) -> bool {
    let n = plan.steps@.len() as int;
    &&& vals.len() == n
    &&& values_upto(plan, server, given, vals, n)
    &&& store.slots@.len() == n
    &&& forall|s: int| 0 <= s < n ==> (#[trigger] store.slots@[s] is Some <==> plan.is_output(s))
    &&& forall|s: int| 0 <= s < n ==> (#[trigger] store.slots@[s] matches Some(ct) ==> ct@ == vals[s])
}

/// Whether `e` is the fault of the first step that cannot run.
pub open spec fn is_first_fault(
    plan: Plan,
    server: Server,
    given: Seq<(String, Ciphertext)>,
    e: ErrorView,
) -> bool {
    exists|k: int|
        0 <= k < plan.steps@.len() && #[trigger] step_fault(plan, server, given, k) == Some(e)
            && forall|x: int| 0 <= x < k ==> #[trigger] step_fault(plan, server, given, x) is None
}

/// Whether `outs` is what evaluating the circuit gives, with `plan` its plan
/// and `vals` the values of the signals: one entry per declared output, in
/// the order of declaration, under its name and with its value.
pub open spec fn is_evaluation(
    c: crate::circuit::CircuitView,
    server: Server,
    given: Seq<(String, Ciphertext)>,
    plan: Plan,
    vals: Seq<CiphertextView>,
    outs: Seq<(String, Ciphertext)>,
) -> bool {
    &&& plan.well_formed()
    &&& plan.distinct_names()
    &&& plan.describes(c)
    &&& vals.len() == plan.steps@.len()
    &&& values_upto(plan, server, given, vals, plan.steps@.len() as int)
    &&& outs.len() == c.outputs.len()
    &&& forall|j: int|
        0 <= j < outs.len() ==> (#[trigger] outs[j]).0@ == c.outputs[j] && outs[j].1@
            == vals[plan.outputs@[j] as int]
}

/// Whether `e` is the error of evaluating the circuit: the error of the
/// check of its names and order, or else the fault of the first step of its plan that cannot run.
pub open spec fn is_evaluation_error(
    c: crate::circuit::CircuitView,
    server: Server,
    given: Seq<(String, Ciphertext)>,
    e: ErrorView,
) -> bool {
    ||| c.check_names() == Err::<(), _>(e)
    ||| c.check_names() is Ok && exists|plan: Plan|
        plan.well_formed() && plan.distinct_names() && plan.describes(c) && #[trigger] is_first_fault(
            plan,
            server,
            given,
            e,
        )
}

/// The sequential executor.
#[derive(Debug, Default)]
pub struct FbsExecSeq;

impl FbsExecSeq {
    pub fn new() -> (exec: FbsExecSeq) {
        FbsExecSeq
    }

    pub fn new_boxed() -> (exec: Box<FbsExecSeq>) {
        Box::new(FbsExecSeq)
    }

    /// The count that every signal starts with: see [`Plan::successors`].
    pub fn find_succ_cnt(plan: &Plan) -> (counts: Vec<u128>)
        requires
            plan.well_formed(),
        ensures
            counts@.len() == plan.steps@.len(),
            forall|s: int| 0 <= s < counts@.len() ==> #[trigger] counts@[s] == plan.successors(s),
    {
        let n = plan.steps.len();
        let mut counts: Vec<u128> = Vec::new();
        let mut is_out: Vec<bool> = Vec::new();
        while counts.len() < n
            invariant
                counts@.len() == is_out@.len() <= n,
                forall|s: int| 0 <= s < counts@.len() ==> #[trigger] counts@[s] == 0,
                forall|s: int| 0 <= s < is_out@.len() ==> !#[trigger] is_out@[s],
            decreases n - counts.len(),
        {
            counts.push(0);
            is_out.push(false);
        }
        let mut k: usize = 0;
        while k < n
            invariant
                k <= n == plan.steps@.len() == counts@.len(),
                plan.well_formed(),
                forall|s: int|
                    0 <= s < n ==> #[trigger] counts@[s] == readings(plan.steps@, s, k as int),
            decreases n - k,
        {
            assert(crate::plan::step_ok(plan.steps@[k as int], k as int));
            match &plan.steps[k] {
                Step::Input => {
                    assert forall|s: int| 0 <= s < n implies count_in(
                        plan.steps@[k as int].reads(),
                        s,
                        0,
                    ) == 0 by {}
                },
                Step::LinComb { inputs, .. } => {
                    let mut r: usize = 0;
                    while r < inputs.len()
                        invariant
                            r <= inputs@.len(),
                            k < n == plan.steps@.len() == counts@.len(),
                            inputs@ == plan.steps@[k as int].reads(),
                            forall|x: int| 0 <= x < inputs@.len() ==> #[trigger] inputs@[x] < k,
                            forall|s: int|
                                0 <= s < n ==> #[trigger] counts@[s] == readings(
                                    plan.steps@,
                                    s,
                                    k as int,
                                ) + count_in(inputs@, s, r as int),
                        decreases inputs@.len() - r,
                    {
                        let id = inputs[r];
                        assert(inputs@[r as int] < k);
                        proof {
                            lemma_readings_bounds(plan.steps@, id as int, 0, k as int);
                            lemma_count_in_bounds(inputs@, id as int, 0, r as int);
                        }
                        counts.set(id, counts[id] + 1);
                        r += 1;
                    }
                },
                Step::Bootstrap { input, .. } => {
                    let id = *input;
                    assert(plan.steps@[k as int].reads()[0] < k);
                    proof {
                        lemma_readings_bounds(plan.steps@, id as int, 0, k as int);
                        assert forall|s: int| 0 <= s < n implies count_in(
                            plan.steps@[k as int].reads(),
                            s,
                            1,
                        ) == (if s == id {
                            1nat
                        } else {
                            0nat
                        }) by {
                            assert(count_in(plan.steps@[k as int].reads(), s, 0) == 0);
                        }
                    }
                    counts.set(id, counts[id] + 1);
                },
            }
            k += 1;
        }
        let mut j: usize = 0;
        while j < plan.outputs.len()
            invariant
                j <= plan.outputs@.len(),
                is_out@.len() == n == plan.steps@.len(),
                plan.well_formed(),
                forall|s: int|
                    0 <= s < n ==> (#[trigger] is_out@[s] <==> exists|x: int|
                        0 <= x < j && plan.outputs@[x] == s),
            decreases plan.outputs@.len() - j,
        {
            let id = plan.outputs[j];
            assert(plan.outputs@[j as int] < n);
            is_out.set(id, true);
            j += 1;
        }
        let mut s: usize = 0;
        while s < n
            invariant
                s <= n == plan.steps@.len() == counts@.len() == is_out@.len(),
                forall|x: int| 0 <= x < n ==> (#[trigger] is_out@[x] <==> plan.is_output(x)),
                forall|x: int| 0 <= x < s ==> #[trigger] counts@[x] == plan.successors(x),
                forall|x: int|
                    s <= x < n ==> #[trigger] counts@[x] == readings(plan.steps@, x, n as int),
            decreases n - s,
        {
            if is_out[s] {
                proof {
                    lemma_readings_bounds(plan.steps@, s as int, 0, n as int);
                }
                counts.set(s, counts[s] + 1);
            }
            s += 1;
        }
        counts
    }
}


impl FbsExecSeq {
    /// The value of step `k`, computed from the values in the store.
    fn compute(
        server: &Server,
        plan: &Plan,
        inputs: &Vec<(String, Ciphertext)>,
        store: &CiphertextStore,
        k: usize,
        Ghost(vals): Ghost<Seq<CiphertextView>>,
    ) -> (r: Result<Ciphertext, Error>)
        requires
            server.well_formed(),
            plan.well_formed(),
            k < plan.steps@.len(),
            store_at(*plan, *store, vals, k as int),
            values_upto(*plan, *server, inputs@, vals, k as int),
        ensures
            match r {
                Ok(ct) => step_fault(*plan, *server, inputs@, k as int) is None && step_value(
                    *plan,
                    *server,
                    inputs@,
                    vals.push(ct@),
                    k as int,
                ) && usable(*server, ct@),
                Err(e) => step_fault(*plan, *server, inputs@, k as int) == Some(e@),
            },
    {
        proof {
            assert(crate::plan::step_ok(plan.steps@[k as int], k as int));
        }
        let step = &plan.steps[k];
        let ghost reads = step.reads();
        let mut refs: Vec<&Ciphertext> = Vec::new();
        match step {
            Step::Input => {
                let name = &plan.names[k];
                return match find_input(inputs, name) {
                    None => Err(Error::new(ErrorKind::MissingInput, name.clone())),
                    Some(i) => {
                        let ct = inputs[i].1.duplicate();
                        if ct.lwe.len() == server.lwe_size && ct.message_modulus > 0 {
                            Ok(ct)
                        } else {
                            Err(Error::new(ErrorKind::InputMismatch, name.clone()))
                        }
                    },
                };
            },
            Step::LinComb { inputs: ids, .. } => {
                let mut r: usize = 0;
                while r < ids.len()
                    invariant
                        r <= ids@.len(),
                        k < plan.steps@.len(),
                        ids@ == reads,
                        reads == plan.steps@[k as int].reads(),
                        forall|x: int| 0 <= x < reads.len() ==> #[trigger] reads[x] < k,
                        store_at(*plan, *store, vals, k as int),
                        refs@.len() == r,
                        forall|x: int| 0 <= x < r ==> (#[trigger] refs@[x])@ == vals[reads[x] as int],
                    decreases ids@.len() - r,
                {
                    let id = ids[r];
                    proof {
                        assert(reads[r as int] < k);
                        lemma_pending(*plan, id as int, k as int);
                        lemma_count_in_next(reads, r as int);
                        assert(store.ref_cnt@[id as int] > 0);
                        assert(store.slots@[id as int] is Some);
                    }
                    refs.push(store.get(id).unwrap());
                    r += 1;
                }
            },
            Step::Bootstrap { input, .. } => {
                let id = *input;
                proof {
                    assert(reads[0] == id);
                    lemma_pending(*plan, id as int, k as int);
                    lemma_count_in_next(reads, 0);
                    assert(store.ref_cnt@[id as int] > 0);
                    assert(store.slots@[id as int] is Some);
                }
                refs.push(store.get(id).unwrap());
            },
        }
        proof {
            assert forall|x: int| 0 <= x < refs@.len() implies usable(*server, (#[trigger] refs@[x])@) by {
                assert(reads[x] < k);
                assert(step_fault(*plan, *server, inputs@, reads[x] as int) is None);
            }
            assert(views_of(refs@) =~= values_read(*plan, vals, k as int));
        }
        let r = run_task(server, step, refs.as_slice());
        proof {
            if r is Ok {
                assert(values_read(*plan, vals.push(r->Ok_0@), k as int) =~= values_read(
                    *plan,
                    vals,
                    k as int,
                ));
            }
        }
        r
    }

    /// Counts the readings of step `k` and puts its value into the store.
    fn settle(
        plan: &Plan,
        counts: &Vec<u128>,
        store: &mut CiphertextStore,
        k: usize,
        value: Ciphertext,
        Ghost(vals): Ghost<Seq<CiphertextView>>,
    )
        requires
            plan.well_formed(),
            k < plan.steps@.len() == counts@.len(),
            forall|s: int| 0 <= s < counts@.len() ==> #[trigger] counts@[s] == plan.successors(s),
            store_at(*plan, *old(store), vals, k as int),
        ensures
            store_at(*plan, *final(store), vals.push(value@), k + 1),
    {
        let ghost n = plan.steps@.len() as int;
        let ghost reads = plan.steps@[k as int].reads();
        proof {
            assert(crate::plan::step_ok(plan.steps@[k as int], k as int));
            assert forall|s: int| 0 <= s < n implies #[trigger] store.ref_cnt@[s] >= count_in(
                reads,
                s,
                reads.len() as int,
            ) by {
                if s < k {
                    lemma_pending(*plan, s, k as int);
                } else {
                    lemma_count_in_absent(reads, s, reads.len() as int);
                }
            }
        }
        match &plan.steps[k] {
            Step::Input => {
                assert forall|s: int| 0 <= s < n implies count_in(reads, s, 0) == 0 by {}
            },
            Step::LinComb { inputs: ids, .. } => {
                store.unref_all(ids);
            },
            Step::Bootstrap { input, .. } => {
                proof {
                    assert(reads[0] == *input);
                    lemma_count_in_next(reads, 0);
                    assert forall|s: int| 0 <= s < n implies count_in(reads, s, 1) == (if s
                        == *input {
                        1nat
                    } else {
                        0nat
                    }) by {
                        assert(count_in(reads, s, 0) == 0);
                    }
                }
                store.unref(*input);
            },
        }
        proof {
            lemma_no_readings_ahead(*plan, k as int, k + 1);
            assert forall|s: int| 0 <= s < n implies #[trigger] store.ref_cnt@[s] == (if s < k {
                plan.remaining(s, k + 1)
            } else {
                0
            }) by {
                lemma_pending(*plan, s, k as int);
                if s >= k {
                    lemma_count_in_absent(reads, s, reads.len() as int);
                }
            }
        }
        store.add(k, value, counts[k]);
    }

    /// Runs the plan on the given input ciphertexts and hands back the store
    /// as the last step left it.
    ///
    /// The run succeeds exactly if no step has a fault ([`step_fault`]), and
    /// fails with the fault of the first step that has one. After a run the
    /// store holds exactly the declared outputs: every other ciphertext was
    /// dropped when its last reader had read it.
    pub fn run(
        &self,
        server: &Server,
        plan: &Plan,
        inputs: &Vec<(String, Ciphertext)>,
    ) -> (r: Result<CiphertextStore, Error>)
        requires
            server.well_formed(),
            plan.well_formed(),
        ensures
            match r {
                Ok(store) => exists|vals: Seq<CiphertextView>|
                    is_run(*plan, *server, inputs@, vals, store),
                Err(e) => is_first_fault(*plan, *server, inputs@, e@),
            },
    {
        let n = plan.steps.len();
        let counts = Self::find_succ_cnt(plan);
        let mut store = CiphertextStore::new(n);
        let ghost mut vals: Seq<CiphertextView> = Seq::empty();
        let mut k: usize = 0;
        while k < n
            invariant
                k <= n == plan.steps@.len() == counts@.len(),
                server.well_formed(),
                plan.well_formed(),
                forall|s: int| 0 <= s < counts@.len() ==> #[trigger] counts@[s] == plan.successors(s),
                store_at(*plan, store, vals, k as int),
                values_upto(*plan, *server, inputs@, vals, k as int),
            decreases n - k,
        {
            let value = match Self::compute(server, plan, inputs, &store, k, Ghost(vals)) {
                Err(e) => {
                    assert(step_fault(*plan, *server, inputs@, k as int) == Some(e@));
                    return Err(e);
                },
                Ok(value) => value,
            };
            let ghost longer = vals.push(value@);
            proof {
                assert forall|x: int| 0 <= x < k + 1 implies #[trigger] step_fault(
                    *plan,
                    *server,
                    inputs@,
                    x,
                ) is None && step_value(*plan, *server, inputs@, longer, x) && usable(
                    *server,
                    longer[x],
                ) by {
                    if x < k {
                        lemma_step_value_stable(*plan, *server, inputs@, vals, longer, x);
                    }
                }
            }
            Self::settle(plan, &counts, &mut store, k, value, Ghost(vals));
            proof {
                vals = longer;
            }
            k += 1;
        }
        proof {
            assert forall|s: int| 0 <= s < n implies (#[trigger] store.slots@[s] is Some
                <==> plan.is_output(s)) by {
                assert(store.ref_cnt@[s] == plan.remaining(s, n as int));
            }
        }
        let r: Result<CiphertextStore, Error> = Ok(store);
        assert(r matches Ok(st) && is_run(*plan, *server, inputs@, vals, st));
        r
    }
}


impl FbsExecSeq {
    /// Evaluates the circuit on the given input ciphertexts.
    ///
    /// The names and the order of the circuit are checked and it is planned
    /// ([`Plan::build`]), the plan is run ([`FbsExecSeq::run`]), and the
    /// ciphertexts of the declared outputs are handed back under their
    /// names, in the order of declaration. The first entry of `inputs` under
    /// the name of a circuit input is its ciphertext.
    pub fn eval(
        &self,
        server: &Server,
        circuit: &Circuit,
        inputs: &Vec<(String, Ciphertext)>,
    ) -> (r: Result<Vec<(String, Ciphertext)>, Error>)
        requires
            server.well_formed(),
        ensures
            match r {
                Ok(outs) => circuit@.check_names() is Ok && exists|plan: Plan, vals: Seq<CiphertextView>|
                    is_evaluation(circuit@, *server, inputs@, plan, vals, outs@),
                Err(e) => is_evaluation_error(circuit@, *server, inputs@, e@),
            },
    {
        let plan = match Plan::build(circuit) {
            Err(e) => {
                return Err(e);
            },
            Ok(plan) => plan,
        };
        let store = match self.run(server, &plan, inputs) {
            Err(e) => {
                assert(is_first_fault(plan, *server, inputs@, e@));
                return Err(e);
            },
            Ok(store) => store,
        };
        let ghost vals = choose|vals: Seq<CiphertextView>|
            is_run(plan, *server, inputs@, vals, store);
        let mut outs: Vec<(String, Ciphertext)> = Vec::new();
        let mut j: usize = 0;
        while j < plan.outputs.len()
            invariant
                j <= plan.outputs@.len() == circuit@.outputs.len(),
                plan.well_formed(),
                plan.describes(circuit@),
                is_run(plan, *server, inputs@, vals, store),
                outs@.len() == j,
                forall|x: int|
                    0 <= x < j ==> (#[trigger] outs@[x]).0@ == circuit@.outputs[x] && outs@[x].1@
                        == vals[plan.outputs@[x] as int],
            decreases plan.outputs@.len() - j,
        {
            let id = plan.outputs[j];
            proof {
                assert(plan.outputs@[j as int] < plan.steps@.len());
                assert(plan.is_output(id as int));
                assert(store.slots@[id as int] is Some);
            }
            let ct = store.get(id).unwrap().duplicate();
            outs.push((plan.names[id].clone(), ct));
            j += 1;
        }
        let r: Result<Vec<(String, Ciphertext)>, Error> = Ok(outs);
        assert(r matches Ok(o) && is_evaluation(circuit@, *server, inputs@, plan, vals, o@));
        r
    }
}

} // verus!
