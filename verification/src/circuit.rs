//! The circuit model: an ordered list of nodes over named signals, with the
//! lists of its declared inputs and outputs, and the rules a circuit must meet
//! before it is run.

use crate::error::{fault, Error, ErrorKind, ErrorView};
use vstd::hash_set::StringHashSet;
use vstd::prelude::*;

verus! {

/// A signal name as specifications see it.
pub type Name = Seq<char>;

/// One node of a circuit.
#[derive(Debug, Clone)]
pub enum Node {
    /// Defines `name` as a circuit input.
    Input { name: String },
    /// Defines `output` as `const_coef` plus the sum of `coefs[i] * inputs[i]`.
    LinComb { inputs: Vec<String>, output: String, coefs: Vec<i8>, const_coef: i8 },
    /// Defines each `outputs[j]` as `tables[j]` looked up at `input`.
    Bootstrap { input: String, outputs: Vec<String>, tables: Vec<Vec<bool>> },
}

/// A node as specifications see it.
pub enum NodeView {
    Input { name: Name },
    LinComb { inputs: Seq<Name>, output: Name, coefs: Seq<i8>, const_coef: i8 },
    Bootstrap { input: Name, outputs: Seq<Name>, tables: Seq<Seq<bool>> },
}

/// The names that the strings of `v` hold.
pub open spec fn names_of(v: Seq<String>) -> Seq<Name> {
    Seq::new(v.len(), |i: int| v[i]@)
}

/// The tables that the vectors of `v` hold.
pub open spec fn tables_of(v: Seq<Vec<bool>>) -> Seq<Seq<bool>> {
    Seq::new(v.len(), |i: int| v[i]@)
}

impl View for Node {
    type V = NodeView;

    open spec fn view(&self) -> NodeView {
        match *self {
            Node::Input { name } => NodeView::Input { name: name@ },
            Node::LinComb { inputs, output, coefs, const_coef } => NodeView::LinComb {
                inputs: names_of(inputs@),
                output: output@,
                coefs: coefs@,
                const_coef,
            },
            Node::Bootstrap { input, outputs, tables } => NodeView::Bootstrap {
                input: input@,
                outputs: names_of(outputs@),
                tables: tables_of(tables@),
            },
        }
    }
}

impl NodeView {
    /// The names that the node reads, in the order in which they are checked.
    pub open spec fn uses(self) -> Seq<Name> {
        match self {
            NodeView::Input { .. } => Seq::empty(),
            NodeView::LinComb { inputs, .. } => inputs,
            NodeView::Bootstrap { input, .. } => seq![input],
        }
    }

    /// The names that the node defines, in the order in which it defines them.
    pub open spec fn defs(self) -> Seq<Name> {
        match self {
            NodeView::Input { name } => seq![name],
            NodeView::LinComb { output, .. } => seq![output],
            NodeView::Bootstrap { outputs, .. } => outputs,
        }
    }

    /// Whether the node's lists pair up: one coefficient per input, one table
    /// per output.
    pub open spec fn well_shaped(self) -> bool {
        match self {
            NodeView::Input { .. } => true,
            NodeView::LinComb { inputs, coefs, .. } => inputs.len() == coefs.len(),
            NodeView::Bootstrap { outputs, tables, .. } => outputs.len() == tables.len(),
        }
    }
}

/// A circuit: its nodes in evaluation order, and the names of its declared
/// inputs and outputs, each in the order of declaration.
#[derive(Debug)]
pub struct Circuit {
    pub inputs: Vec<String>,
    pub nodes: Vec<Node>,
    pub outputs: Vec<String>,
}

/// A circuit as specifications see it.
pub struct CircuitView {
    pub inputs: Seq<Name>,
    pub nodes: Seq<NodeView>,
    pub outputs: Seq<Name>,
}

/// The views of the nodes of `v`.
pub open spec fn nodes_of(v: Seq<Node>) -> Seq<NodeView> {
    Seq::new(v.len(), |i: int| v[i]@)
}

impl View for Circuit {
    type V = CircuitView;

    open spec fn view(&self) -> CircuitView {
        CircuitView {
            inputs: names_of(self.inputs@),
            nodes: nodes_of(self.nodes@),
            outputs: names_of(self.outputs@),
        }
    }
}

impl CircuitView {
    pub open spec fn empty() -> CircuitView {
        CircuitView { inputs: Seq::empty(), nodes: Seq::empty(), outputs: Seq::empty() }
    }

    pub open spec fn add_input(self, name: Name) -> CircuitView {
        CircuitView {
            inputs: self.inputs.push(name),
            nodes: self.nodes.push(NodeView::Input { name }),
            outputs: self.outputs,
        }
    }

    pub open spec fn add_output(self, name: Name) -> CircuitView {
        CircuitView { inputs: self.inputs, nodes: self.nodes, outputs: self.outputs.push(name) }
    }

    pub open spec fn add_node(self, node: NodeView) -> CircuitView {
        CircuitView { inputs: self.inputs, nodes: self.nodes.push(node), outputs: self.outputs }
    }
}

// ---------------------------------------------------------------------------
// The consistency rules
// ---------------------------------------------------------------------------

/// The first name of `names`, from index `from` on, that is not in `defined`.
pub open spec fn first_missing(defined: Set<Name>, names: Seq<Name>, from: int) -> Option<Name>
    decreases names.len() - from,
{
    if from < 0 || from >= names.len() {
        None
    } else if !defined.contains(names[from]) {
        Some(names[from])
    } else {
        first_missing(defined, names, from + 1)
    }
}

/// `defined` with the names of `names` from index `from` on added one by one;
/// the first of them that is already there is an error.
pub open spec fn define_all(defined: Set<Name>, names: Seq<Name>, from: int) -> Result<
    Set<Name>,
    ErrorView,
>
    decreases names.len() - from,
{
    if from < 0 || from >= names.len() {
        Ok(defined)
    } else if defined.contains(names[from]) {
        Err(fault(ErrorKind::NameAlreadyDefined, names[from]))
    } else {
        define_all(defined.insert(names[from]), names, from + 1)
    }
}

/// One node checked against the names defined before it: its lists pair up,
/// every name it reads is defined, and every name it defines is new. Gives the
/// names defined after it.
pub open spec fn check_node(defined: Set<Name>, node: NodeView) -> Result<Set<Name>, ErrorView> {
    if !node.well_shaped() {
        Err(fault(ErrorKind::NodeShape, Seq::empty()))
    } else {
        match first_missing(defined, node.uses(), 0) {
            Some(name) => Err(fault(ErrorKind::NameUndefined, name)),
            None => define_all(defined, node.defs(), 0),
        }
    }
}

/// The nodes from index `from` on checked in order, starting from the names
/// in `defined`. Gives the first error, or the names defined at the end.
pub open spec fn check_nodes(defined: Set<Name>, nodes: Seq<NodeView>, from: int) -> Result<
    Set<Name>,
    ErrorView,
>
    decreases nodes.len() - from,
{
    if from < 0 || from >= nodes.len() {
        Ok(defined)
    } else {
        match check_node(defined, nodes[from]) {
            Err(e) => Err(e),
            Ok(next) => check_nodes(next, nodes, from + 1),
        }
    }
}

/// The set of the first `upto` names of `names`.
pub open spec fn name_set(names: Seq<Name>, upto: int) -> Set<Name>
    decreases upto,
{
    if upto <= 0 {
        Set::empty()
    } else {
        name_set(names, upto - 1).insert(names[upto - 1])
    }
}

/// The names that the first `upto` nodes read.
pub open spec fn used_by_nodes(nodes: Seq<NodeView>, upto: int) -> Set<Name>
    decreases upto,
{
    if upto <= 0 {
        Set::empty()
    } else {
        used_by_nodes(nodes, upto - 1).union(
            name_set(nodes[upto - 1].uses(), nodes[upto - 1].uses().len() as int),
        )
    }
}

impl CircuitView {
    /// The names that some node reads or that are declared outputs.
    pub open spec fn used(self) -> Set<Name> {
        used_by_nodes(self.nodes, self.nodes.len() as int).union(
            name_set(self.outputs, self.outputs.len() as int),
        )
    }

    /// Whether every name that one of the first `upto` nodes defines is used.
    pub open spec fn all_used(self, upto: int) -> bool {
        forall|i: int, k: int|
            0 <= i < upto && i < self.nodes.len() && 0 <= k < self.nodes[i].defs().len()
                ==> self.used().contains(#[trigger] self.nodes[i].defs()[k])
    }

    /// Whether every defined name is read by a node or declared an output.
    pub open spec fn no_dangling(self) -> bool {
        self.all_used(self.nodes.len() as int)
    }

    /// The outcome of checking names and order: the nodes in order, then the
    /// declared outputs in order.
    pub open spec fn check_names(self) -> Result<(), ErrorView> {
        match check_nodes(Set::empty(), self.nodes, 0) {
            Err(e) => Err(e),
            Ok(defined) => match first_missing(defined, self.outputs, 0) {
                Some(name) => Err(fault(ErrorKind::NameUndefined, name)),
                None => Ok(()),
            },
        }
    }

    /// The outcome of checking the circuit: names and order, and then that
    /// no definition is left unused.
    pub open spec fn check(self) -> Result<(), ErrorView> {
        match self.check_names() {
            Err(e) => Err(e),
            Ok(()) => if self.no_dangling() {
                Ok(())
            } else {
                Err(fault(ErrorKind::DanglingDefinition, Seq::empty()))
            },
        }
    }
}

/// Defining a single name fails if it is there already and adds it otherwise.
pub proof fn lemma_define_one(defined: Set<Name>, name: Name)
    ensures
        define_all(defined, seq![name], 0) == if defined.contains(name) {
            Err::<Set<Name>, _>(fault(ErrorKind::NameAlreadyDefined, name))
        } else {
            Ok::<_, ErrorView>(defined.insert(name))
        },
{
    let names = seq![name];
    assert(names[0] == name);
    assert(define_all(defined.insert(name), names, 1) == Ok::<_, ErrorView>(
        defined.insert(name),
    ));
}

// ---------------------------------------------------------------------------
// What a checked circuit is like
// ---------------------------------------------------------------------------

/// Whether one of the nodes from `from` up to, not including, `upto`
/// defines `name`.
pub open spec fn defined_between(nodes: Seq<NodeView>, from: int, upto: int, name: Name) -> bool {
    exists|i: int, k: int|
        from <= i < upto && 0 <= i < nodes.len() && 0 <= k < nodes[i].defs().len()
            && #[trigger] nodes[i].defs()[k] == name
}

/// If no name is missing, every name is defined.
pub proof fn lemma_none_missing(defined: Set<Name>, names: Seq<Name>, from: int)
    requires
        0 <= from,
        first_missing(defined, names, from) is None,
    ensures
        forall|r: int| from <= r < names.len() ==> defined.contains(#[trigger] names[r]),
    decreases names.len() - from,
{
    if from < names.len() {
        lemma_none_missing(defined, names, from + 1);
    }
}

/// Names that could all be defined were new, differ from each other, and are
/// what has been added.
pub proof fn lemma_all_defined(defined: Set<Name>, names: Seq<Name>, from: int)
    requires
        0 <= from,
        define_all(defined, names, from) is Ok,
    ensures
        forall|r: int| from <= r < names.len() ==> !defined.contains(#[trigger] names[r]),
        forall|r: int, t: int|
            from <= r < t < names.len() ==> #[trigger] names[r] != #[trigger] names[t],
        forall|name: Name|
            #![trigger define_all(defined, names, from)->Ok_0.contains(name)]
            define_all(defined, names, from)->Ok_0.contains(name) <==> defined.contains(name) || (
            exists|r: int| from <= r < names.len() && #[trigger] names[r] == name),
    decreases names.len() - from,
{
    if from < names.len() {
        let next = defined.insert(names[from]);
        lemma_all_defined(next, names, from + 1);
        let end = define_all(defined, names, from)->Ok_0;
        assert forall|r: int| from <= r < names.len() implies !defined.contains(
            #[trigger] names[r],
        ) by {
            if r > from {
                assert(!next.contains(names[r]));
            }
        }
        assert forall|r: int, t: int| from <= r < t < names.len() implies #[trigger] names[r]
            != #[trigger] names[t] by {
            if r == from {
                assert(!next.contains(names[t]));
            }
        }
        assert forall|name: Name| #![trigger end.contains(name)] end.contains(name)
            <==> defined.contains(name) || (exists|r: int|
            from <= r < names.len() && #[trigger] names[r] == name) by {
            if end.contains(name) {
                if next.contains(name) {
                    if !defined.contains(name) {
                        assert(names[from] == name);
                    }
                } else {
                    let r = choose|r: int| from + 1 <= r < names.len() && #[trigger] names[r] == name;
                    assert(names[r] == name);
                }
            }
            if defined.contains(name) {
                assert(next.contains(name));
            }
            if exists|r: int| from <= r < names.len() && #[trigger] names[r] == name {
                let r = choose|r: int| from <= r < names.len() && #[trigger] names[r] == name;
                if r == from {
                    assert(next.contains(name));
                } else {
                    assert(names[r] == name);
                }
            }
        }
    }
}

/// Whether the nodes from `from` on, checked from the names in `defined`,
/// are as the rules ask: shaped well, reading only names of `defined` or of
/// a node before them, and defining names that are neither in `defined` nor
/// defined a second time.
pub open spec fn rules_hold(defined: Set<Name>, nodes: Seq<NodeView>, from: int) -> bool {
    &&& forall|i: int| from <= i < nodes.len() ==> (#[trigger] nodes[i]).well_shaped()
    &&& forall|i: int, r: int|
        from <= i < nodes.len() && 0 <= r < nodes[i].uses().len() ==> defined.contains(
            #[trigger] nodes[i].uses()[r],
        ) || defined_between(nodes, from, i, nodes[i].uses()[r])
    &&& forall|i: int, k: int|
        from <= i < nodes.len() && 0 <= k < nodes[i].defs().len() ==> !defined.contains(
            #[trigger] nodes[i].defs()[k],
        )
    &&& forall|i: int, k: int, j: int, m: int|
        from <= i < nodes.len() && 0 <= k < nodes[i].defs().len() && from <= j < nodes.len() && 0
            <= m < nodes[j].defs().len() && (i != j || k != m) ==> #[trigger] nodes[i].defs()[k]
            != #[trigger] nodes[j].defs()[m]
}

/// Nodes that pass the check are as the rules ask, and the names defined at
/// the end are those defined at the start and those that the nodes define.
pub proof fn lemma_checked_nodes(defined: Set<Name>, nodes: Seq<NodeView>, from: int)
    requires
        0 <= from <= nodes.len(),
        check_nodes(defined, nodes, from) is Ok,
    ensures
        rules_hold(defined, nodes, from),
        forall|name: Name|
            #![trigger check_nodes(defined, nodes, from)->Ok_0.contains(name)]
            check_nodes(defined, nodes, from)->Ok_0.contains(name) <==> defined.contains(name)
                || defined_between(nodes, from, nodes.len() as int, name),
    decreases nodes.len() - from,
{
    let end = check_nodes(defined, nodes, from)->Ok_0;
    if from < nodes.len() {
        let node = nodes[from];
        let next = check_node(defined, node)->Ok_0;
        lemma_none_missing(defined, node.uses(), 0);
        lemma_all_defined(defined, node.defs(), 0);
        lemma_checked_nodes(next, nodes, from + 1);
        assert forall|name: Name| #![trigger end.contains(name)] end.contains(name)
            <==> defined.contains(name) || defined_between(
            nodes,
            from,
            nodes.len() as int,
            name,
        ) by {
            if end.contains(name) && !defined.contains(name) {
                if next.contains(name) {
                    let r = choose|r: int| 0 <= r < node.defs().len() && #[trigger] node.defs()[r] == name;
                    assert(nodes[from].defs()[r] == name);
                } else {
                    assert(defined_between(nodes, from + 1, nodes.len() as int, name));
                    let (i, k) = choose|i: int, k: int|
                        from + 1 <= i < nodes.len() && 0 <= i < nodes.len() && 0 <= k
                            < nodes[i].defs().len() && #[trigger] nodes[i].defs()[k] == name;
                    assert(nodes[i].defs()[k] == name);
                }
            }
            if defined.contains(name) {
                assert(next.contains(name));
            }
            if defined_between(nodes, from, nodes.len() as int, name) {
                let (i, k) = choose|i: int, k: int|
                    from <= i < nodes.len() && 0 <= i < nodes.len() && 0 <= k
                        < nodes[i].defs().len() && #[trigger] nodes[i].defs()[k] == name;
                if i == from {
                    assert(node.defs()[k] == name);
                    assert(next.contains(name));
                } else {
                    assert(nodes[i].defs()[k] == name);
                    assert(defined_between(nodes, from + 1, nodes.len() as int, name));
                }
            }
        }
        assert forall|i: int, r: int|
            from <= i < nodes.len() && 0 <= r < nodes[i].uses().len() implies defined.contains(
            #[trigger] nodes[i].uses()[r],
        ) || defined_between(nodes, from, i, nodes[i].uses()[r]) by {
            let name = nodes[i].uses()[r];
            if i > from && !defined.contains(name) {
                if next.contains(name) {
                    let t = choose|t: int| 0 <= t < node.defs().len() && #[trigger] node.defs()[t] == name;
                    assert(nodes[from].defs()[t] == name);
                } else {
                    assert(defined_between(nodes, from + 1, i, name));
                    let (j, k) = choose|j: int, k: int|
                        from + 1 <= j < i && 0 <= j < nodes.len() && 0 <= k < nodes[j].defs().len()
                            && #[trigger] nodes[j].defs()[k] == name;
                    assert(nodes[j].defs()[k] == name);
                }
            }
        }
        assert forall|i: int, k: int|
            from <= i < nodes.len() && 0 <= k < nodes[i].defs().len() implies !defined.contains(
            #[trigger] nodes[i].defs()[k],
        ) by {
            if i > from {
                assert(!next.contains(nodes[i].defs()[k]));
            }
        }
        assert forall|i: int, k: int, j: int, m: int|
            from <= i < nodes.len() && 0 <= k < nodes[i].defs().len() && from <= j < nodes.len()
                && 0 <= m < nodes[j].defs().len() && (i != j || k != m) implies #[trigger] nodes[i].defs()[k]
            != #[trigger] nodes[j].defs()[m] by {
            if i == from && j > from {
                assert(next.contains(node.defs()[k]));
                assert(!next.contains(nodes[j].defs()[m]));
            } else if j == from && i > from {
                assert(next.contains(node.defs()[m]));
                assert(!next.contains(nodes[i].defs()[k]));
            }
        }
    }
}

/// In a circuit that passes the check, every node's lists pair up, every
/// name that a node reads is defined by a node before it, no name is defined
/// twice, and every declared output is defined by a node.
pub proof fn lemma_checked_circuit(c: CircuitView)
    requires
        c.check_names() is Ok,
    ensures
        rules_hold(Set::empty(), c.nodes, 0),
        forall|i: int, r: int|
            0 <= i < c.nodes.len() && 0 <= r < c.nodes[i].uses().len() ==> defined_between(
                c.nodes,
                0,
                i,
                #[trigger] c.nodes[i].uses()[r],
            ),
        forall|j: int|
            0 <= j < c.outputs.len() ==> defined_between(
                c.nodes,
                0,
                c.nodes.len() as int,
                #[trigger] c.outputs[j],
            ),
{
    lemma_checked_nodes(Set::empty(), c.nodes, 0);
    let defined = check_nodes(Set::empty(), c.nodes, 0)->Ok_0;
    lemma_none_missing(defined, c.outputs, 0);
    assert forall|j: int| 0 <= j < c.outputs.len() implies defined_between(
        c.nodes,
        0,
        c.nodes.len() as int,
        #[trigger] c.outputs[j],
    ) by {
        assert(defined.contains(c.outputs[j]));
    }
}

/// The index of the first name of `names` that is not in `defined`.
fn find_missing(defined: &StringHashSet, names: &Vec<String>) -> (r: Option<usize>)
    ensures
        match r {
            Some(i) => i < names.len() && first_missing(defined@, names_of(names@), 0) == Some(
                names[i as int]@,
            ),
            None => first_missing(defined@, names_of(names@), 0) is None,
        },
{
    let mut i: usize = 0;
    while i < names.len()
        invariant
            i <= names.len(),
            first_missing(defined@, names_of(names@), 0) == first_missing(
                defined@,
                names_of(names@),
                i as int,
            ),
        decreases names.len() - i,
    {
        if !defined.contains(names[i].as_str()) {
            return Some(i);
        }
        i += 1;
    }
    None
}

/// Adds the names of `names` to `defined` one by one, up to the first that is
/// already there.
fn insert_new(defined: &mut StringHashSet, names: &Vec<String>) -> (r: Result<(), Error>)
    ensures
        match r {
            Ok(()) => define_all(old(defined)@, names_of(names@), 0) == Ok::<_, ErrorView>(
                final(defined)@,
            ),
            Err(e) => define_all(old(defined)@, names_of(names@), 0) == Err::<Set<Name>, _>(e@),
        },
{
    let mut i: usize = 0;
    while i < names.len()
        invariant
            i <= names.len(),
            define_all(old(defined)@, names_of(names@), 0) == define_all(
                defined@,
                names_of(names@),
                i as int,
            ),
        decreases names.len() - i,
    {
        if defined.contains(names[i].as_str()) {
            return Err(Error::new(ErrorKind::NameAlreadyDefined, names[i].clone()));
        }
        defined.insert(names[i].clone());
        i += 1;
    }
    Ok(())
}

/// Adds the names of `names` to `used`.
fn insert_all(used: &mut StringHashSet, names: &Vec<String>)
    ensures
        final(used)@ == old(used)@.union(name_set(names_of(names@), names.len() as int)),
{
    let mut i: usize = 0;
    while i < names.len()
        invariant
            i <= names.len(),
            used@ == old(used)@.union(name_set(names_of(names@), i as int)),
        decreases names.len() - i,
    {
        used.insert(names[i].clone());
        i += 1;
    }
}

/// Whether every name of `names` is in `used`.
fn all_in(used: &StringHashSet, names: &Vec<String>) -> (b: bool)
    ensures
        b == (forall|k: int| 0 <= k < names.len() ==> used@.contains(#[trigger] names[k]@)),
{
    let mut i: usize = 0;
    while i < names.len()
        invariant
            i <= names.len(),
            forall|k: int| 0 <= k < i ==> used@.contains(#[trigger] names[k]@),
        decreases names.len() - i,
    {
        if !used.contains(names[i].as_str()) {
            return false;
        }
        i += 1;
    }
    true
}

impl Node {
    /// Checks the node against the names defined before it and adds the names
    /// it defines.
    fn check(&self, defined: &mut StringHashSet) -> (r: Result<(), Error>)
        ensures
            match r {
                Ok(()) => check_node(old(defined)@, self@) == Ok::<_, ErrorView>(final(defined)@),
                Err(e) => check_node(old(defined)@, self@) == Err::<Set<Name>, _>(e@),
            },
    {
        match self {
            Node::Input { name } => {
                proof {
                    lemma_define_one(defined@, name@);
                }
                if defined.contains(name.as_str()) {
                    return Err(Error::new(ErrorKind::NameAlreadyDefined, name.clone()));
                }
                defined.insert(name.clone());
                Ok(())
            },
            Node::LinComb { inputs, output, coefs, .. } => {
                if inputs.len() != coefs.len() {
                    return Err(Error::bare(ErrorKind::NodeShape));
                }
                match find_missing(defined, inputs) {
                    Some(i) => {
                        return Err(Error::new(ErrorKind::NameUndefined, inputs[i].clone()));
                    },
                    None => {},
                }
                proof {
                    lemma_define_one(defined@, output@);
                }
                if defined.contains(output.as_str()) {
                    return Err(Error::new(ErrorKind::NameAlreadyDefined, output.clone()));
                }
                defined.insert(output.clone());
                Ok(())
            },
            Node::Bootstrap { input, outputs, tables } => {
                if outputs.len() != tables.len() {
                    return Err(Error::bare(ErrorKind::NodeShape));
                }
                proof {
                    let uses = seq![input@];
                    assert(first_missing(defined@, uses, 1) is None);
                }
                if !defined.contains(input.as_str()) {
                    return Err(Error::new(ErrorKind::NameUndefined, input.clone()));
                }
                insert_new(defined, outputs)
            },
        }
    }

    /// Adds the names that the node reads to `used`.
    fn mark_used(&self, used: &mut StringHashSet)
        ensures
            final(used)@ == old(used)@.union(name_set(self@.uses(), self@.uses().len() as int)),
    {
        match self {
            Node::Input { .. } => {
                assert(used@ =~= old(used)@.union(Set::empty()));
            },
            Node::LinComb { inputs, .. } => {
                insert_all(used, inputs);
            },
            Node::Bootstrap { input, .. } => {
                used.insert(input.clone());
                assert(used@ =~= old(used)@.union(name_set(seq![input@], 1))) by {
                    assert(name_set(seq![input@], 1) == name_set(seq![input@], 0).insert(input@));
                }
            },
        }
    }

    /// Whether every name that the node defines is in `used`.
    fn defs_in(&self, used: &StringHashSet) -> (b: bool)
        ensures
            b == (forall|k: int|
                0 <= k < self@.defs().len() ==> used@.contains(#[trigger] self@.defs()[k])),
    {
        match self {
            Node::Input { name } => {
                let b = used.contains(name.as_str());
                assert(self@.defs()[0] == name@);
                b
            },
            Node::LinComb { output, .. } => {
                let b = used.contains(output.as_str());
                assert(self@.defs()[0] == output@);
                b
            },
            Node::Bootstrap { outputs, .. } => {
                let b = all_in(used, outputs);
                assert(forall|k: int|
                    0 <= k < outputs.len() ==> self@.defs()[k] == #[trigger] outputs[k]@);
                b
            },
        }
    }
}

impl Circuit {
    /// A circuit without nodes, inputs or outputs.
    pub fn new() -> (c: Circuit)
        ensures
            c@ == CircuitView::empty(),
    {
        let c = Circuit { inputs: Vec::new(), nodes: Vec::new(), outputs: Vec::new() };
        assert(c@.inputs =~= Seq::empty() && c@.nodes =~= Seq::empty() && c@.outputs
            =~= Seq::empty());
        c
    }

    /// Declares `name` as the next input: the name joins the inputs, and an
    /// input node that defines it joins the nodes.
    pub fn add_input(&mut self, name: String)
        ensures
            final(self)@ == old(self)@.add_input(name@),
    {
        self.inputs.push(name.clone());
        self.nodes.push(Node::Input { name });
        assert(self@.inputs =~= old(self)@.inputs.push(name@));
        assert(self@.nodes =~= old(self)@.nodes.push(NodeView::Input { name: name@ }));
        assert(self@.outputs =~= old(self)@.outputs);
    }

    /// Declares `name` as the next output.
    pub fn add_output(&mut self, name: String)
        ensures
            final(self)@ == old(self)@.add_output(name@),
    {
        self.outputs.push(name);
        assert(self@.inputs =~= old(self)@.inputs);
        assert(self@.nodes =~= old(self)@.nodes);
        assert(self@.outputs =~= old(self)@.outputs.push(name@));
    }

    /// Appends a node that defines `output` as `const_coef` plus the sum of
    /// `coefs[i] * inputs[i]`.
    pub fn add_lincomb(
        &mut self,
        output: String,
        inputs: Vec<String>,
        coefs: Vec<i8>,
        const_coef: i8,
    )
        ensures
            final(self)@ == old(self)@.add_node(
                NodeView::LinComb {
                    inputs: names_of(inputs@),
                    output: output@,
                    coefs: coefs@,
                    const_coef,
                },
            ),
    {
        let node = Node::LinComb { inputs, output, coefs, const_coef };
        self.push_node(node);
    }

    /// Appends a node that defines each `outputs[j]` as `tables[j]` looked up
    /// at `input`.
    pub fn add_bootstrap(&mut self, outputs: Vec<String>, input: String, tables: Vec<Vec<bool>>)
        ensures
            final(self)@ == old(self)@.add_node(
                NodeView::Bootstrap {
                    input: input@,
                    outputs: names_of(outputs@),
                    tables: tables_of(tables@),
                },
            ),
    {
        let node = Node::Bootstrap { input, outputs, tables };
        self.push_node(node);
    }

    /// Appends a node.
    pub fn push_node(&mut self, node: Node)
        ensures
            final(self)@ == old(self)@.add_node(node@),
    {
        self.nodes.push(node);
        assert(self@.inputs =~= old(self)@.inputs);
        assert(self@.nodes =~= old(self)@.nodes.push(node@));
        assert(self@.outputs =~= old(self)@.outputs);
    }

    /// Checks the circuit and hands it back unchanged if it meets the rules:
    /// no name is defined twice, every name is defined before it is read,
    /// every declared output is defined, the lists of every node pair up, and
    /// every defined name is read by a node or is a declared output.
    ///
    /// The error is the first that a walk through the nodes in order meets,
    /// then through the declared outputs ([`check_circuit`]); a circuit that
    /// passes those fails with `DanglingDefinition` exactly if it defines a
    /// name that nothing uses.
    pub fn check(self) -> (r: Result<Circuit, Error>)
        ensures
            match r {
                Ok(c) => c == self && self@.check() is Ok,
                Err(e) => self@.check() == Err::<(), _>(e@),
            },
    {
        let circuit = match check_circuit(self) {
            Err(e) => {
                return Err(e);
            },
            Ok(circuit) => circuit,
        };
        match circuit.check_dangling() {
            Err(e) => Err(e),
            Ok(()) => Ok(circuit),
        }
    }

    /// Reports a definition that nothing uses: fails with
    /// `DanglingDefinition` exactly if some node defines a name that no node
    /// reads and that is no declared output.
    pub fn check_dangling(&self) -> (r: Result<(), Error>)
        ensures
            match r {
                Ok(()) => self@.no_dangling(),
                Err(e) => !self@.no_dangling() && e@ == fault(
                    ErrorKind::DanglingDefinition,
                    Seq::empty(),
                ),
            },
    {
        let mut used = StringHashSet::new();
        let mut i: usize = 0;
        while i < self.nodes.len()
            invariant
                i <= self.nodes.len(),
                used@ == used_by_nodes(self@.nodes, i as int),
            decreases self.nodes.len() - i,
        {
            assert(self@.nodes[i as int] == self.nodes[i as int]@);
            self.nodes[i].mark_used(&mut used);
            i += 1;
        }
        insert_all(&mut used, &self.outputs);
        assert(used@ == self@.used());
        let mut j: usize = 0;
        while j < self.nodes.len()
            invariant
                j <= self.nodes.len(),
                used@ == self@.used(),
                self@.all_used(j as int),
            decreases self.nodes.len() - j,
        {
            assert(self@.nodes[j as int] == self.nodes[j as int]@);
            if !self.nodes[j].defs_in(&used) {
                assert(!self@.all_used(self.nodes.len() as int));
                return Err(Error::bare(ErrorKind::DanglingDefinition));
            }
            j += 1;
        }
        Ok(())
    }
}

/// Checks names and order, and hands the circuit back unchanged if it meets
/// the rules: no name is defined twice, every name is defined before it is
/// read, every declared output is defined, and the lists of every node pair
/// up.
///
/// The error is the first that a walk through the nodes in order meets, then
/// through the declared outputs. A definition that nothing uses is no error
/// here: see [`Circuit::check`].
pub fn check_circuit(circuit: Circuit) -> (r: Result<Circuit, Error>)
    ensures
        match r {
            Ok(c) => c == circuit && circuit@.check_names() is Ok,
            Err(e) => circuit@.check_names() == Err::<(), _>(e@),
        },
{
    let mut defined = StringHashSet::new();
    let mut i: usize = 0;
    while i < circuit.nodes.len()
        invariant
            i <= circuit.nodes.len(),
            check_nodes(Set::empty(), circuit@.nodes, 0) == check_nodes(
                defined@,
                circuit@.nodes,
                i as int,
            ),
        decreases circuit.nodes.len() - i,
    {
        assert(circuit@.nodes[i as int] == circuit.nodes[i as int]@);
        match circuit.nodes[i].check(&mut defined) {
            Err(e) => {
                return Err(e);
            },
            Ok(()) => {},
        }
        i += 1;
    }
    match find_missing(&defined, &circuit.outputs) {
        Some(k) => {
            return Err(Error::new(ErrorKind::NameUndefined, circuit.outputs[k].clone()));
        },
        None => {},
    }
    Ok(circuit)
}

} // verus!
