use lbf_eval::circuit::{check_circuit, Circuit, Node};
use lbf_eval::error::{Error, ErrorKind};
use lbf_eval::plan::{Plan, Step};
use lbf_eval::stats::CircuitStats;

fn s(x: &str) -> String {
    x.to_string()
}

fn names(v: &[&str]) -> Vec<String> {
    v.iter().map(|x| x.to_string()).collect()
}

fn kind_and_context(e: &Error) -> (ErrorKind, &str) {
    (e.kind, e.context.as_str())
}

fn and_xor() -> Circuit {
    let mut c = Circuit::new();
    c.add_input(s("a"));
    c.add_input(s("b"));
    c.add_output(s("e"));
    c.add_output(s("f"));
    c.add_lincomb(s("n"), names(&["a", "b", "a"]), vec![1, 1, 1], 0);
    c.add_bootstrap(names(&["e", "f"]), s("n"), vec![vec![false, false, false, true], vec![false, true]]);
    c
}

#[test]
fn building_a_circuit() {
    let c = and_xor();
    assert_eq!(c.inputs, ["a", "b"]);
    assert_eq!(c.outputs, ["e", "f"]);
    assert_eq!(c.nodes.len(), 4);
    assert!(matches!(&c.nodes[0], Node::Input { name } if name == "a"));
    assert!(matches!(&c.nodes[1], Node::Input { name } if name == "b"));
    match &c.nodes[2] {
        Node::LinComb { inputs, output, coefs, const_coef } => {
            assert_eq!(inputs, &["a", "b", "a"]);
            assert_eq!(output, "n");
            assert_eq!(coefs, &[1, 1, 1]);
            assert_eq!(*const_coef, 0);
        }
        other => panic!("{:?}", other),
    }
    match &c.nodes[3] {
        Node::Bootstrap { input, outputs, tables } => {
            assert_eq!(input, "n");
            assert_eq!(outputs, &["e", "f"]);
            assert_eq!(tables, &[vec![false, false, false, true], vec![false, true]]);
        }
        other => panic!("{:?}", other),
    }
    let empty = Circuit::new();
    assert!(empty.inputs.is_empty() && empty.nodes.is_empty() && empty.outputs.is_empty());
}

#[test]
fn a_consistent_circuit_passes_unchanged() {
    let c = and_xor().check().unwrap();
    assert_eq!(c.nodes.len(), 4);
    assert!(c.check_dangling().is_ok());
    assert!(Circuit::new().check().is_ok());
}

#[test]
fn a_name_defined_twice() {
    let mut c = Circuit::new();
    c.add_input(s("a"));
    c.add_input(s("a"));
    assert_eq!(kind_and_context(&c.check().unwrap_err()), (ErrorKind::NameAlreadyDefined, "a"));

    let mut c = Circuit::new();
    c.add_input(s("a"));
    c.add_lincomb(s("a"), names(&["a"]), vec![1], 0);
    assert_eq!(kind_and_context(&c.check().unwrap_err()), (ErrorKind::NameAlreadyDefined, "a"));

    let mut c = Circuit::new();
    c.add_input(s("a"));
    c.add_bootstrap(names(&["x", "y", "x"]), s("a"), vec![vec![], vec![], vec![]]);
    assert_eq!(kind_and_context(&c.check().unwrap_err()), (ErrorKind::NameAlreadyDefined, "x"));
}

#[test]
fn a_name_used_before_its_definition() {
    let mut c = Circuit::new();
    c.add_input(s("a"));
    c.add_lincomb(s("n"), names(&["a", "m", "z"]), vec![1, 1, 1], 0);
    c.add_input(s("m"));
    assert_eq!(kind_and_context(&c.check().unwrap_err()), (ErrorKind::NameUndefined, "m"));

    let mut c = Circuit::new();
    c.add_bootstrap(names(&["x"]), s("x"), vec![vec![true]]);
    assert_eq!(kind_and_context(&c.check().unwrap_err()), (ErrorKind::NameUndefined, "x"));

    let mut c = Circuit::new();
    c.add_input(s("a"));
    c.add_output(s("a"));
    c.add_output(s("q"));
    assert_eq!(kind_and_context(&c.check().unwrap_err()), (ErrorKind::NameUndefined, "q"));
}

#[test]
fn the_first_error_in_the_order_of_the_nodes() {
    // the undefined output is met after the nodes
    let mut c = Circuit::new();
    c.add_output(s("q"));
    c.add_input(s("a"));
    c.add_input(s("a"));
    assert_eq!(kind_and_context(&c.check().unwrap_err()), (ErrorKind::NameAlreadyDefined, "a"));
    // a node's readings are checked before its definitions
    let mut c = Circuit::new();
    c.add_input(s("a"));
    c.add_lincomb(s("a"), names(&["b"]), vec![1], 0);
    assert_eq!(kind_and_context(&c.check().unwrap_err()), (ErrorKind::NameUndefined, "b"));
}

#[test]
fn lists_that_do_not_pair_up() {
    let mut c = Circuit::new();
    c.add_input(s("a"));
    c.add_lincomb(s("n"), names(&["a"]), vec![1, 2], 0);
    assert_eq!(kind_and_context(&c.check().unwrap_err()), (ErrorKind::NodeShape, ""));
    let mut c = Circuit::new();
    c.add_input(s("a"));
    c.add_bootstrap(names(&["x", "y"]), s("a"), vec![vec![true]]);
    assert_eq!(kind_and_context(&c.check().unwrap_err()), (ErrorKind::NodeShape, ""));
}

#[test]
fn a_definition_that_nothing_uses() {
    let mut c = and_xor();
    assert!(c.check_dangling().is_ok());
    c.add_input(s("spare"));
    assert_eq!(kind_and_context(&c.check_dangling().unwrap_err()), (ErrorKind::DanglingDefinition, ""));
    // it is no error of names or order, but one of the circuit
    let c = check_circuit(c).unwrap();
    assert_eq!(c.nodes.len(), 5);
    assert_eq!(kind_and_context(&c.check().unwrap_err()), (ErrorKind::DanglingDefinition, ""));

    let mut c = Circuit::new();
    c.add_input(s("a"));
    c.add_input(s("b"));
    c.add_output(s("a"));
    assert_eq!(kind_and_context(&c.check().unwrap_err()), (ErrorKind::DanglingDefinition, ""));

    // an output of a bootstrap that nothing reads
    let two_outputs = || {
        let mut c = Circuit::new();
        c.add_input(s("a"));
        c.add_bootstrap(names(&["x", "y"]), s("a"), vec![vec![true], vec![false]]);
        c.add_output(s("x"));
        c
    };
    assert_eq!(
        kind_and_context(&two_outputs().check().unwrap_err()),
        (ErrorKind::DanglingDefinition, "")
    );
    let mut c = two_outputs();
    c.add_lincomb(s("z"), names(&["y"]), vec![1], 0);
    c.add_output(s("z"));
    assert!(c.check().is_ok());

    // an error of names comes first
    let mut c = Circuit::new();
    c.add_input(s("a"));
    c.add_input(s("b"));
    c.add_output(s("q"));
    assert_eq!(kind_and_context(&c.check().unwrap_err()), (ErrorKind::NameUndefined, "q"));
}

#[test]
fn the_plan_of_a_circuit() {
    let plan = Plan::build(&and_xor()).unwrap();
    assert_eq!(plan.names, ["a", "b", "n", "e", "f"]);
    assert_eq!(plan.outputs, [3, 4]);
    assert_eq!(plan.steps.len(), 5);
    assert!(matches!(plan.steps[0], Step::Input));
    assert!(matches!(plan.steps[1], Step::Input));
    match &plan.steps[2] {
        Step::LinComb { inputs, coefs, const_coef } => {
            assert_eq!(inputs, &[0, 1, 0]);
            assert_eq!(coefs, &[1, 1, 1]);
            assert_eq!(*const_coef, 0);
        }
        other => panic!("{:?}", other),
    }
    match (&plan.steps[3], &plan.steps[4]) {
        (Step::Bootstrap { input: 2, table: e }, Step::Bootstrap { input: 2, table: f }) => {
            assert_eq!(e, &[false, false, false, true]);
            assert_eq!(f, &[false, true]);
        }
        other => panic!("{:?}", other),
    }
    assert_eq!(plan.steps[0].read_ids(), Vec::<usize>::new());
    assert_eq!(plan.steps[2].read_ids(), [0, 1, 0]);
    assert_eq!(plan.steps[4].read_ids(), [2]);
}

#[test]
fn a_plan_fails_as_the_check_does() {
    let build = |f: &dyn Fn(&mut Circuit)| {
        let mut c = Circuit::new();
        f(&mut c);
        let planned = Plan::build(&c).map(|_| ()).map_err(|e| (e.kind, e.context));
        let checked = check_circuit(c).map(|_| ()).map_err(|e| (e.kind, e.context));
        assert_eq!(planned, checked);
        checked
    };
    assert!(build(&|_| {}).is_ok());
    assert!(build(&|c| {
        c.add_input(s("a"));
        c.add_output(s("a"));
    })
    .is_ok());
    assert_eq!(
        build(&|c| {
            c.add_input(s("a"));
            c.add_bootstrap(names(&["x", "a"]), s("a"), vec![vec![], vec![]]);
        }),
        Err((ErrorKind::NameAlreadyDefined, s("a")))
    );
    assert_eq!(
        build(&|c| {
            c.add_lincomb(s("n"), names(&["n"]), vec![3], 1);
        }),
        Err((ErrorKind::NameUndefined, s("n")))
    );
    assert_eq!(
        build(&|c| {
            c.add_lincomb(s("n"), names(&[]), vec![3], 1);
        }),
        Err((ErrorKind::NodeShape, s("")))
    );
    assert_eq!(
        build(&|c| {
            c.add_input(s("a"));
            c.add_output(s("b"));
        }),
        Err((ErrorKind::NameUndefined, s("b")))
    );
}

#[test]
fn counts_by_kind() {
    let stats = CircuitStats::new(&and_xor());
    assert_eq!(
        stats,
        CircuitStats { nb_input: 2, nb_output: 2, nb_lincomb: 1, nb_bootstrap: 1, nb_bootstrap_indiv: 2 }
    );
    let mut c = and_xor();
    c.add_bootstrap(names(&["x", "y", "z"]), s("n"), vec![vec![], vec![], vec![]]);
    c.add_bootstrap(names(&[]), s("n"), vec![]);
    c.add_output(s("x"));
    let stats = CircuitStats::new(&c);
    assert_eq!(
        stats,
        CircuitStats { nb_input: 2, nb_output: 3, nb_lincomb: 1, nb_bootstrap: 3, nb_bootstrap_indiv: 5 }
    );
    assert_eq!(CircuitStats::new(&Circuit::new()), CircuitStats::default());
}

#[test]
fn messages_of_errors() {
    let e = Error::new(ErrorKind::NameUndefined, s("n1"));
    assert_eq!(e.message(), "name does not exist: n1");
    let e = Error::bare(ErrorKind::DanglingDefinition);
    assert_eq!(e.message(), "circuit has dangling nodes");
    assert_eq!(e.context, "");
}
