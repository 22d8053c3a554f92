//! Counts of the nodes of a circuit, by kind.

use crate::circuit::{Circuit, Node, NodeView};
use vstd::prelude::*;

verus! {

/// How many nodes of each kind a circuit has.
#[derive(Default, Debug, Clone, Copy, PartialEq, Eq)]
pub struct CircuitStats {
    pub nb_input: usize,
    pub nb_output: usize,
    pub nb_lincomb: usize,
    pub nb_bootstrap: usize,
    /// The outputs of all bootstrap nodes together; the largest `usize` if
    /// there are more.
    pub nb_bootstrap_indiv: usize,
}

/// How many of the first `upto` nodes are of the kind `kind`.
pub open spec fn node_count(nodes: Seq<NodeView>, kind: spec_fn(NodeView) -> bool, upto: int) -> nat
    decreases upto,
{
    if upto <= 0 {
        0
    } else {
        node_count(nodes, kind, upto - 1) + if kind(nodes[upto - 1]) {
            1nat
        } else {
            0nat
        }
    }
}

/// How many outputs the bootstrap nodes among the first `upto` nodes have
/// together.
pub open spec fn bootstrap_outputs(nodes: Seq<NodeView>, upto: int) -> nat
    decreases upto,
{
    if upto <= 0 {
        0
    } else {
        bootstrap_outputs(nodes, upto - 1) + match nodes[upto - 1] {
            NodeView::Bootstrap { outputs, .. } => outputs.len(),
            _ => 0nat,
        }
    }
}

pub open spec fn is_input(node: NodeView) -> bool {
    node is Input
}

pub open spec fn is_lincomb(node: NodeView) -> bool {
    node is LinComb
}

pub open spec fn is_bootstrap(node: NodeView) -> bool {
    node is Bootstrap
}

impl CircuitStats {
    /// The counts of a circuit.
    pub fn new(circuit: &Circuit) -> (stats: CircuitStats)
        ensures
            stats.nb_input == node_count(circuit@.nodes, |n: NodeView| is_input(n), circuit@.nodes.len() as int),
            stats.nb_lincomb == node_count(
                circuit@.nodes,
                |n: NodeView| is_lincomb(n),
                circuit@.nodes.len() as int,
            ),
            stats.nb_bootstrap == node_count(
                circuit@.nodes,
                |n: NodeView| is_bootstrap(n),
                circuit@.nodes.len() as int,
            ),
            stats.nb_bootstrap_indiv == if bootstrap_outputs(
                circuit@.nodes,
                circuit@.nodes.len() as int,
            ) > usize::MAX {
                usize::MAX
            } else {
                bootstrap_outputs(circuit@.nodes, circuit@.nodes.len() as int) as usize
            },
            stats.nb_output == circuit@.outputs.len(),
    {
        let mut stats = CircuitStats {
            nb_input: 0,
            nb_output: circuit.outputs.len(),
            nb_lincomb: 0,
            nb_bootstrap: 0,
            nb_bootstrap_indiv: 0,
        };
        let ghost nodes = circuit@.nodes;
        let mut i: usize = 0;
        while i < circuit.nodes.len()
            invariant
                i <= circuit.nodes@.len(),
                nodes == circuit@.nodes,
                stats.nb_output == circuit@.outputs.len(),
                stats.nb_input == node_count(nodes, |n: NodeView| is_input(n), i as int),
                stats.nb_lincomb == node_count(nodes, |n: NodeView| is_lincomb(n), i as int),
                stats.nb_bootstrap == node_count(nodes, |n: NodeView| is_bootstrap(n), i as int),
                stats.nb_input <= i && stats.nb_lincomb <= i && stats.nb_bootstrap <= i,
                stats.nb_bootstrap_indiv == if bootstrap_outputs(nodes, i as int) > usize::MAX {
                    usize::MAX
                } else {
                    bootstrap_outputs(nodes, i as int) as usize
                },
            decreases circuit.nodes@.len() - i,
        {
            assert(nodes[i as int] == circuit.nodes[i as int]@);
            match &circuit.nodes[i] {
                Node::Input { .. } => {
                    stats.nb_input += 1;
                },
                Node::LinComb { .. } => {
                    stats.nb_lincomb += 1;
                },
                Node::Bootstrap { outputs, .. } => {
                    stats.nb_bootstrap += 1;
                    stats.nb_bootstrap_indiv = stats.nb_bootstrap_indiv.saturating_add(
                        outputs.len(),
                    );
                },
            }
            i += 1;
        }
        stats
    }
}

} // verus!
