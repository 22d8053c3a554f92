//! Execution plans: a circuit with its names resolved.
//!
//! A plan lists the steps of a circuit in evaluation order. Every step
//! defines exactly one signal, so a bootstrap node with `m` outputs becomes
//! `m` steps that read the same signal. Step `k` defines signal `k`; the
//! signals that a step reads are given by their numbers, all below `k`.

use crate::circuit::{
    check_node, check_nodes, define_all, first_missing, lemma_define_one, names_of, tables_of,
    Circuit, CircuitView, Name, Node, NodeView,
};
use crate::error::{fault, Error, ErrorKind, ErrorView};
use vstd::hash_map::StringHashMap;
use vstd::prelude::*;

verus! {

/// One step of a plan.
#[derive(Debug)]
pub enum Step {
    /// The signal is a circuit input.
    Input,
    /// The signal is `const_coef` plus the sum of `coefs[i]` times signal
    /// `inputs[i]`.
    LinComb { inputs: Vec<usize>, coefs: Vec<i8>, const_coef: i8 },
    /// The signal is `table` looked up at signal `input`.
    Bootstrap { input: usize, table: Vec<bool> },
}

/// A step written with names in place of signal numbers.
pub enum NamedStep {
    Input { name: Name },
    LinComb { inputs: Seq<Name>, coefs: Seq<i8>, const_coef: i8, output: Name },
    Bootstrap { input: Name, table: Seq<bool>, output: Name },
}

/// A plan: the name and the step of every signal, and the signals that are
/// the declared outputs, in the order of declaration.
#[derive(Debug)]
pub struct Plan {
    pub names: Vec<String>,
    pub steps: Vec<Step>,
    pub outputs: Vec<usize>,
}

/// The steps that a node stands for, in order.
pub open spec fn node_steps(node: NodeView) -> Seq<NamedStep> {
    match node {
        NodeView::Input { name } => seq![NamedStep::Input { name }],
        NodeView::LinComb { inputs, output, coefs, const_coef } => seq![
            NamedStep::LinComb { inputs, coefs, const_coef, output },
        ],
        NodeView::Bootstrap { input, outputs, tables } => Seq::new(
            outputs.len(),
            |j: int| NamedStep::Bootstrap { input, table: tables[j], output: outputs[j] },
        ),
    }
}

/// The steps that the first `upto` nodes stand for, in order.
pub open spec fn expand(nodes: Seq<NodeView>, upto: int) -> Seq<NamedStep>
    decreases upto,
{
    if upto <= 0 {
        Seq::empty()
    } else {
        expand(nodes, upto - 1) + node_steps(nodes[upto - 1])
    }
}

impl Step {
    /// The signals that the step reads, one entry per reading.
    pub open spec fn reads(&self) -> Seq<usize> {
        match *self {
            Step::Input => Seq::empty(),
            Step::LinComb { inputs, .. } => inputs@,
            Step::Bootstrap { input, .. } => seq![input],
        }
    }

    /// Whether a linear combination has one coefficient per input.
    pub open spec fn well_shaped(&self) -> bool {
        match *self {
            Step::LinComb { inputs, coefs, .. } => inputs@.len() == coefs@.len(),
            _ => true,
        }
    }

    /// The step as step `k` of a plan with the given names, written with
    /// names.
    pub open spec fn named(&self, k: int, names: Seq<Name>) -> NamedStep {
        match *self {
            Step::Input => NamedStep::Input { name: names[k] },
            Step::LinComb { inputs, coefs, const_coef } => NamedStep::LinComb {
                inputs: Seq::new(inputs@.len(), |r: int| names[inputs@[r] as int]),
                coefs: coefs@,
                const_coef,
                output: names[k],
            },
            Step::Bootstrap { input, table } => NamedStep::Bootstrap {
                input: names[input as int],
                table: table@,
                output: names[k],
            },
        }
    }
}

impl Step {
    /// The signals that the step reads, one entry per reading.
    pub fn read_ids(&self) -> (ids: Vec<usize>)
        ensures
            ids@ == self.reads(),
    {
        match self {
            Step::Input => Vec::new(),
            Step::LinComb { inputs, .. } => copy_vec(inputs),
            Step::Bootstrap { input, .. } => {
                let mut ids: Vec<usize> = Vec::new();
                ids.push(*input);
                ids
            },
        }
    }
}

/// Whether step `k` reads only signals below `k` and is well shaped.
pub open spec fn step_ok(step: Step, k: int) -> bool {
    &&& step.well_shaped()
    &&& forall|r: int| 0 <= r < step.reads().len() ==> #[trigger] step.reads()[r] < k
}

impl Plan {
    /// Whether the plan can be run: every signal has a name and a step, every
    /// step reads only signals defined before it, and every output is a
    /// signal.
    pub open spec fn well_formed(&self) -> bool {
        &&& self.names@.len() == self.steps@.len()
        &&& forall|k: int| 0 <= k < self.steps@.len() ==> step_ok(#[trigger] self.steps@[k], k)
        &&& forall|j: int|
            0 <= j < self.outputs@.len() ==> #[trigger] self.outputs@[j] < self.steps@.len()
    }

    /// Whether no two signals have one name.
    pub open spec fn distinct_names(&self) -> bool {
        forall|a: int, b: int|
            0 <= a < b < self.names@.len() ==> (#[trigger] self.names@[a])@ != (
            #[trigger] self.names@[b])@
    }

    /// Whether the plan is that of the circuit: its steps, written with
    /// names, are the nodes of the circuit spread out; and its outputs are
    /// the signals that the declared outputs name.
    pub open spec fn describes(&self, c: CircuitView) -> bool {
        let steps = expand(c.nodes, c.nodes.len() as int);
        &&& self.steps@.len() == steps.len()
        &&& forall|k: int|
            0 <= k < steps.len() ==> (#[trigger] self.steps@[k]).named(k, names_of(self.names@))
                == steps[k]
        &&& self.outputs@.len() == c.outputs.len()
        &&& forall|j: int|
            0 <= j < c.outputs.len() ==> self.names@[(#[trigger] self.outputs@[j]) as int]@
                == c.outputs[j]
    }
}

/// A copy of a vector of plain values.
pub fn copy_vec<T: Copy>(v: &Vec<T>) -> (r: Vec<T>)
    ensures
        r@ == v@,
{
    let mut r: Vec<T> = Vec::new();
    let mut i: usize = 0;
    while i < v.len()
        invariant
            i <= v.len(),
            r@ == v@.subrange(0, i as int),
        decreases v.len() - i,
    {
        r.push(v[i]);
        i += 1;
    }
    assert(v@.subrange(0, i as int) =~= v@);
    r
}


/// Writing a step with names looks only at the names up to its own.
proof fn lemma_named_stable(step: Step, k: int, names: Seq<Name>, longer: Seq<Name>)
    requires
        step_ok(step, k),
        0 <= k < names.len() <= longer.len(),
        forall|x: int| 0 <= x <= k ==> names[x] == longer[x],
    ensures
        step.named(k, names) == step.named(k, longer),
{
    match step {
        Step::Input => {},
        Step::LinComb { inputs, coefs, const_coef } => {
            assert forall|r: int| 0 <= r < inputs@.len() implies names[inputs@[r] as int]
                == longer[inputs@[r] as int] by {
                assert(step.reads()[r] < k);
            }
            assert(Seq::new(inputs@.len(), |r: int| names[inputs@[r] as int]) =~= Seq::new(
                inputs@.len(),
                |r: int| longer[inputs@[r] as int],
            ));
        },
        Step::Bootstrap { input, table } => {
            assert(step.reads()[0] < k);
        },
    }
}

/// A plan under construction: the steps so far, with the number of the signal
/// that each name defines.
struct Builder {
    ids: StringHashMap<usize>,
    names: Vec<String>,
    steps: Vec<Step>,
}

impl Builder {
    /// The names defined so far.
    spec fn defined(&self) -> Set<Name> {
        self.ids@.dom()
    }

    /// Every name defined so far is the name of exactly one signal, found
    /// under its number; and every step reads only signals before it.
    spec fn inv(&self) -> bool {
        &&& self.names@.len() == self.steps@.len()
        &&& forall|name: Name| #[trigger]
            self.ids@.contains_key(name) ==> self.ids@[name] < self.names@.len()
                && self.names@[self.ids@[name] as int]@ == name
        &&& forall|k: int|
            0 <= k < self.names@.len() ==> self.ids@.contains_key((#[trigger] self.names@[k])@)
                && self.ids@[self.names@[k]@] == k
        &&& forall|k: int| 0 <= k < self.steps@.len() ==> step_ok(#[trigger] self.steps@[k], k)
    }

    /// Whether `self` is `before` with the given steps appended.
    spec fn extends(&self, before: Builder, added: Seq<NamedStep>) -> bool {
        &&& self.steps@.len() == before.steps@.len() + added.len()
        &&& self.names@.len() == self.steps@.len()
        &&& forall|k: int|
            0 <= k < before.steps@.len() ==> #[trigger] self.steps@[k] == before.steps@[k]
        &&& forall|k: int|
            0 <= k < before.names@.len() ==> (#[trigger] self.names@[k])@ == before.names@[k]@
        &&& forall|k: int|
            before.steps@.len() <= k < self.steps@.len() ==> (#[trigger] self.steps@[k]).named(
                k,
                names_of(self.names@),
            ) == added[k - before.steps@.len()]
    }

    fn new() -> (b: Builder)
        ensures
            b.inv(),
            b.defined() == Set::<Name>::empty(),
            b.steps@.len() == 0,
    {
        let b = Builder { ids: StringHashMap::new(), names: Vec::new(), steps: Vec::new() };
        assert(b.ids@.dom() =~= Set::<Name>::empty());
        b
    }

    /// The signal that `name` defines.
    fn lookup(&self, name: &String) -> (r: Option<usize>)
        requires
            self.inv(),
        ensures
            match r {
                Some(id) => self.defined().contains(name@) && id < self.names@.len()
                    && self.names@[id as int]@ == name@,
                None => !self.defined().contains(name@),
            },
    {
        match self.ids.get(name.as_str()) {
            Some(id) => Some(*id),
            None => None,
        }
    }

    /// Appends `step` as the step that defines `name`, unless the name is
    /// defined already.
    fn define(&mut self, name: &String, step: Step) -> (r: Result<(), Error>)
        requires
            old(self).inv(),
            step_ok(step, old(self).steps@.len() as int),
        ensures
            match r {
                Ok(()) => {
                    &&& !old(self).defined().contains(name@)
                    &&& final(self).defined() == old(self).defined().insert(name@)
                    &&& final(self).inv()
                    &&& final(self).steps@ == old(self).steps@.push(step)
                    &&& names_of(final(self).names@) == names_of(old(self).names@).push(name@)
                },
                Err(e) => {
                    &&& old(self).defined().contains(name@)
                    &&& e@ == fault(ErrorKind::NameAlreadyDefined, name@)
                    &&& *final(self) == *old(self)
                },
            },
    {
        if self.ids.contains_key(name.as_str()) {
            return Err(Error::new(ErrorKind::NameAlreadyDefined, name.clone()));
        }
        let id = self.names.len();
        self.ids.insert(name.clone(), id);
        self.names.push(name.clone());
        self.steps.push(step);
        proof {
            assert(self.ids@.dom() =~= old(self).ids@.dom().insert(name@));
            assert(names_of(self.names@) =~= names_of(old(self).names@).push(name@));
            assert forall|n: Name| #[trigger] self.ids@.contains_key(n) implies self.ids@[n]
                < self.names@.len() && self.names@[self.ids@[n] as int]@ == n by {
                if n != name@ {
                    assert(old(self).ids@.contains_key(n));
                }
            }
            assert forall|k: int| 0 <= k < self.names@.len() implies self.ids@.contains_key(
                (#[trigger] self.names@[k])@,
            ) && self.ids@[self.names@[k]@] == k by {
                if k < id {
                    assert(self.names@[k] == old(self).names@[k]);
                    assert(old(self).ids@.contains_key(old(self).names@[k]@));
                }
            }
            assert forall|k: int| 0 <= k < self.steps@.len() implies step_ok(
                #[trigger] self.steps@[k],
                k,
            ) by {
                if k < id {
                    assert(self.steps@[k] == old(self).steps@[k]);
                }
            }
        }
        Ok(())
    }
}


impl Builder {
    /// The signals that the names of `names` define, up to the first name
    /// that is not defined.
    fn lookup_all(&self, names: &Vec<String>) -> (r: Result<Vec<usize>, Error>)
        requires
            self.inv(),
        ensures
            match r {
                Ok(ids) => {
                    &&& first_missing(self.defined(), names_of(names@), 0) is None
                    &&& ids@.len() == names@.len()
                    &&& forall|k: int|
                        0 <= k < ids@.len() ==> (#[trigger] ids@[k]) < self.names@.len()
                            && self.names@[ids@[k] as int]@ == names@[k]@
                },
                Err(e) => first_missing(self.defined(), names_of(names@), 0) matches Some(name)
                    && e@ == fault(ErrorKind::NameUndefined, name),
            },
    {
        let mut ids: Vec<usize> = Vec::new();
        let mut i: usize = 0;
        while i < names.len()
            invariant
                i <= names.len(),
                self.inv(),
                first_missing(self.defined(), names_of(names@), 0) == first_missing(
                    self.defined(),
                    names_of(names@),
                    i as int,
                ),
                ids@.len() == i,
                forall|k: int|
                    0 <= k < i ==> (#[trigger] ids@[k]) < self.names@.len()
                        && self.names@[ids@[k] as int]@ == names@[k]@,
            decreases names.len() - i,
        {
            match self.lookup(&names[i]) {
                Some(id) => {
                    ids.push(id);
                },
                None => {
                    return Err(Error::new(ErrorKind::NameUndefined, names[i].clone()));
                },
            }
            i += 1;
        }
        Ok(ids)
    }

    /// Appends the steps of a node, after checking the node against the names
    /// defined before it.
    #[verifier::loop_isolation(false)]
    fn add_node(&mut self, node: &Node) -> (r: Result<(), Error>)
        requires
            old(self).inv(),
        ensures
            match r {
                Ok(()) => {
                    &&& check_node(old(self).defined(), node@) == Ok::<_, ErrorView>(
                        final(self).defined(),
                    )
                    &&& final(self).inv()
                    &&& final(self).extends(*old(self), node_steps(node@))
                },
                Err(e) => check_node(old(self).defined(), node@) == Err::<Set<Name>, _>(e@),
            },
    {
        let ghost before = *self;
        match node {
            Node::Input { name } => {
                proof {
                    lemma_define_one(self.defined(), name@);
                }
                match self.define(name, Step::Input) {
                    Err(e) => Err(e),
                    Ok(()) => {
                        proof {
                            let k = before.steps@.len() as int;
                            let names = names_of(self.names@);
                            assert(self.steps@[k] == Step::Input);
                            assert(names[k] == name@);
                            assert forall|x: int| 0 <= x < before.names@.len() implies (
                            #[trigger] self.names@[x])@ == before.names@[x]@ by {
                                assert(names[x] == names_of(before.names@)[x]);
                            }
                            assert(self.extends(before, node_steps(node@)));
                        }
                        Ok(())
                    },
                }
            },
            Node::LinComb { inputs, output, coefs, const_coef } => {
                if inputs.len() != coefs.len() {
                    return Err(Error::bare(ErrorKind::NodeShape));
                }
                let ids = match self.lookup_all(inputs) {
                    Err(e) => {
                        return Err(e);
                    },
                    Ok(ids) => ids,
                };
                proof {
                    lemma_define_one(self.defined(), output@);
                }
                let step = Step::LinComb { inputs: ids, coefs: copy_vec(coefs), const_coef: *const_coef };
                assert(step_ok(step, self.steps@.len() as int));
                match self.define(output, step) {
                    Err(e) => Err(e),
                    Ok(()) => {
                        proof {
                            let k = before.steps@.len() as int;
                            let names = names_of(self.names@);
                            assert(self.steps@[k] == step);
                            assert forall|r: int| 0 <= r < ids@.len() implies names[ids@[r] as int]
                                == names_of(inputs@)[r] by {
                                assert(names[ids@[r] as int] == names_of(before.names@)[ids@[r] as int]);
                            }
                            assert(Seq::new(ids@.len(), |r: int| names[ids@[r] as int]) =~= names_of(
                                inputs@,
                            ));
                            assert(step.named(k, names) == node_steps(node@)[0]);
                            assert forall|x: int| 0 <= x < before.names@.len() implies (
                            #[trigger] self.names@[x])@ == before.names@[x]@ by {
                                assert(names[x] == names_of(before.names@)[x]);
                            }
                            assert(self.extends(before, node_steps(node@)));
                        }
                        Ok(())
                    },
                }
            },
            Node::Bootstrap { input, outputs, tables } => {
                if outputs.len() != tables.len() {
                    return Err(Error::bare(ErrorKind::NodeShape));
                }
                proof {
                    assert(first_missing(self.defined(), seq![input@], 1) is None);
                }
                let id = match self.lookup(input) {
                    None => {
                        return Err(Error::new(ErrorKind::NameUndefined, input.clone()));
                    },
                    Some(id) => id,
                };
                let ghost base = self.steps@.len() as int;
                let mut j: usize = 0;
                while j < outputs.len()
                    invariant
                        j <= outputs.len() == tables.len(),
                        self.inv(),
                        before.inv(),
                        base == before.steps@.len(),
                        id < base,
                        before.names@[id as int]@ == input@,
                        define_all(before.defined(), names_of(outputs@), 0) == define_all(
                            self.defined(),
                            names_of(outputs@),
                            j as int,
                        ),
                        self.steps@.len() == base + j,
                        forall|k: int| 0 <= k < base ==> #[trigger] self.steps@[k] == before.steps@[k],
                        forall|k: int|
                            0 <= k < base ==> (#[trigger] self.names@[k])@ == before.names@[k]@,
                        forall|k: int|
                            base <= k < base + j ==> (#[trigger] self.names@[k])@ == outputs@[k
                                - base]@,
                        forall|k: int|
                            base <= k < base + j ==> (#[trigger] self.steps@[k] matches Step::Bootstrap {
                                input: read,
                                table,
                            } && read == id && table@ == tables@[k - base]@),
                    decreases outputs.len() - j,
                {
                    let step = Step::Bootstrap { input: id, table: copy_vec(&tables[j]) };
                    assert(step.reads()[0] == id);
                    let ghost prev = *self;
                    match self.define(&outputs[j], step) {
                        Err(e) => {
                            return Err(e);
                        },
                        Ok(()) => {
                            proof {
                                let names = names_of(self.names@);
                                assert forall|k: int| 0 <= k < base + j implies (
                                #[trigger] self.names@[k])@ == prev.names@[k]@ by {
                                    assert(names[k] == names_of(prev.names@)[k]);
                                }
                                assert(names[base + j] == outputs@[j as int]@);
                                assert(self.steps@[base + j] == step);
                            }
                        },
                    }
                    j += 1;
                }
                proof {
                    let added = node_steps(node@);
                    let names = names_of(self.names@);
                    assert forall|k: int| base <= k < self.steps@.len() implies (
                    #[trigger] self.steps@[k]).named(k, names) == added[k - base] by {
                        assert(names[id as int] == input@);
                        assert(names[k] == self.names@[k]@);
                        assert(tables_of(tables@)[k - base] == tables@[k - base]@);
                    }
                    assert(self.extends(before, added));
                }
                Ok(())
            },
        }
    }
}

impl Plan {
    /// The plan of a circuit, or what is wrong with the circuit.
    ///
    /// A plan is made exactly of the circuits that pass the check of names
    /// and order, and a circuit that does not pass gives the error of that
    /// check. The plan's
    /// steps are the nodes in order, a bootstrap node spread out into one step
    /// per output; every name is resolved to the one signal that it defines.
    pub fn build(circuit: &Circuit) -> (r: Result<Plan, Error>)
        ensures
            match r {
                Ok(plan) => {
                    &&& circuit@.check_names() is Ok
                    &&& plan.well_formed()
                    &&& plan.distinct_names()
                    &&& plan.describes(circuit@)
                },
                Err(e) => circuit@.check_names() == Err::<(), _>(e@),
            },
    {
        let mut b = Builder::new();
        let mut i: usize = 0;
        while i < circuit.nodes.len()
            invariant
                i <= circuit.nodes.len(),
                b.inv(),
                check_nodes(Set::empty(), circuit@.nodes, 0) == check_nodes(
                    b.defined(),
                    circuit@.nodes,
                    i as int,
                ),
                b.steps@.len() == expand(circuit@.nodes, i as int).len(),
                forall|k: int|
                    0 <= k < b.steps@.len() ==> (#[trigger] b.steps@[k]).named(
                        k,
                        names_of(b.names@),
                    ) == expand(circuit@.nodes, i as int)[k],
            decreases circuit.nodes.len() - i,
        {
            assert(circuit@.nodes[i as int] == circuit.nodes[i as int]@);
            let ghost before = b;
            match b.add_node(&circuit.nodes[i]) {
                Err(e) => {
                    return Err(e);
                },
                Ok(()) => {},
            }
            proof {
                let old_steps = expand(circuit@.nodes, i as int);
                let added = node_steps(circuit@.nodes[i as int]);
                let names = names_of(b.names@);
                assert forall|k: int| 0 <= k < b.steps@.len() implies (#[trigger] b.steps@[k]).named(
                    k,
                    names,
                ) == (old_steps + added)[k] by {
                    if k < before.steps@.len() {
                        assert(b.steps@[k] == before.steps@[k]);
                        assert forall|x: int| 0 <= x <= k implies names_of(before.names@)[x]
                            == names[x] by {
                            assert(b.names@[x]@ == before.names@[x]@);
                        }
                        lemma_named_stable(before.steps@[k], k, names_of(before.names@), names);
                    }
                }
            }
            i += 1;
        }
        let ghost nodes = circuit@.nodes;
        let outputs = match b.lookup_all(&circuit.outputs) {
            Err(e) => {
                return Err(e);
            },
            Ok(ids) => ids,
        };
        let plan = Plan { names: b.names, steps: b.steps, outputs };
        proof {
            assert(plan.well_formed());
            assert forall|a: int, c: int| 0 <= a < c < plan.names@.len() implies (
            #[trigger] plan.names@[a])@ != (#[trigger] plan.names@[c])@ by {
                assert(b.ids@[plan.names@[a]@] == a);
                assert(b.ids@[plan.names@[c]@] == c);
            }
            assert(plan.describes(circuit@));
        }
        Ok(plan)
    }
}

} // verus!
