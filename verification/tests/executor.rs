use lbf_eval::ciphertext::Ciphertext;
use lbf_eval::circuit::Circuit;
use lbf_eval::clear::ClearExec;
use lbf_eval::client::{gen_client_server, Client, ParameterSet};
use lbf_eval::error::ErrorKind;
use lbf_eval::fbs_seq::FbsExecSeq;
use lbf_eval::parser::parse_lbf;
use lbf_eval::plan::Plan;
use lbf_eval::server::Server;
use rayon::iter::{IntoParallelIterator, ParallelIterator};

const SAMPLE: &str = ".inputs a b c d
.outputs e f g \\
    h CONST1
.lincomb CONST1     # CONSTANT
1
.lincomb a b \\
 n1     # n1 = 2.a + b
2 1
.lincomb a b n2     # n2 = a - b + 1
1 -1 \\
1
.bootstrap n1 e          # AND(a, b)
000   \\
1
.bootstrap n2 f          # XOR(a, b)
101
.bootstrap n2 g h
001                 # AND(a, NOT(b))
0001
.end
";

const AND: &str = ".inputs a b\n.outputs e\n.lincomb a b n1\n2 1\n.bootstrap n1 e\n0001\n.end\n";

const XOR: &str = ".inputs a b\n.outputs f\n.lincomb a b n2\n1 -1 1\n.bootstrap n2 f\n101\n.end\n";

/// A ciphertext that anyone can read, with the bookkeeping of a fresh one.
fn plain(server: &Server, client: &Client, bit: bool) -> Ciphertext {
    let delta = (1u64 << 63) / server.pt_mod as u64;
    Ciphertext::trivial(bit as u64, server.lwe_size, delta, client.pt_mod_full, 0)
}

fn bits(names: &[&str], values: &[bool]) -> Vec<(String, bool)> {
    names.iter().zip(values).map(|(n, v)| (n.to_string(), *v)).collect()
}

fn decrypted(client: &Client, outs: &[(String, Ciphertext)]) -> Vec<(String, u8)> {
    outs.iter().map(|(n, ct)| (n.clone(), client.decrypt(ct).unwrap())).collect()
}

fn expect(names: &[&str], values: &[u8]) -> Vec<(String, u8)> {
    names.iter().zip(values).map(|(n, v)| (n.to_string(), *v)).collect()
}

#[test]
fn clear_evaluator_on_the_sample() {
    let circuit = parse_lbf(SAMPLE).unwrap();
    let exec = ClearExec::new();
    let names = ["a", "b", "c", "d"];
    let run = |a: bool, b: bool| exec.eval(&circuit, &bits(&names, &[a, b, false, true])).unwrap();
    let outs = ["e", "f", "g", "h", "CONST1"];
    assert_eq!(run(false, false), bits(&outs, &[false, false, false, false, true]));
    assert_eq!(run(false, true), bits(&outs, &[false, true, false, false, true]));
    assert_eq!(run(true, false), bits(&outs, &[false, true, true, false, true]));
    assert_eq!(run(true, true), bits(&outs, &[true, false, false, false, true]));
}

#[test]
fn clear_evaluator_errors() {
    let exec = ClearExec::new();
    let circuit = parse_lbf(AND).unwrap();
    let e = exec.eval(&circuit, &bits(&["a"], &[true])).unwrap_err();
    assert_eq!((e.kind, e.context.as_str()), (ErrorKind::MissingInput, "b"));

    let negative = parse_lbf(".inputs a\n.outputs n\n.lincomb a n\n-1\n.end").unwrap();
    let e = exec.eval(&negative, &bits(&["a"], &[true])).unwrap_err();
    assert_eq!((e.kind, e.context.as_str()), (ErrorKind::NegativeValue, "n"));

    let large = parse_lbf(".inputs a\n.outputs n\n.lincomb a n\n1 127\n.end").unwrap();
    let e = exec.eval(&large, &bits(&["a"], &[true])).unwrap_err();
    assert_eq!((e.kind, e.context.as_str()), (ErrorKind::ValueTooLarge, "n"));
    // 127 itself is a value, but no bit
    let e = exec.eval(&large, &bits(&["a"], &[false])).unwrap_err();
    assert_eq!((e.kind, e.context.as_str()), (ErrorKind::NotBoolean, "n"));

    let short = parse_lbf(".inputs a\n.outputs e\n.lincomb a n\n1 1\n.bootstrap n e\n01\n.end").unwrap();
    assert_eq!(exec.eval(&short, &bits(&["a"], &[false])).unwrap(), bits(&["e"], &[true]));
    let e = exec.eval(&short, &bits(&["a"], &[true])).unwrap_err();
    assert_eq!((e.kind, e.context.as_str()), (ErrorKind::TableTooShort, "e"));

    let mut unchecked = Circuit::new();
    unchecked.add_lincomb("n".to_string(), vec!["x".to_string()], vec![1], 0);
    let e = exec.eval(&unchecked, &Vec::new()).unwrap_err();
    assert_eq!((e.kind, e.context.as_str()), (ErrorKind::NameUndefined, "x"));
}

#[test]
fn sample_on_readable_ciphertexts() {
    let (client, server) = gen_client_server(ParameterSet::Message1Carry1).unwrap();
    let circuit = parse_lbf(SAMPLE).unwrap();
    let exec = FbsExecSeq::new();
    let clear = ClearExec::new();
    let outs = ["e", "f", "g", "h", "CONST1"];
    let expected: [[u8; 5]; 4] = [[0, 0, 0, 0, 1], [0, 1, 0, 0, 1], [0, 1, 1, 0, 1], [1, 0, 0, 0, 1]];
    for (i, (a, b)) in [(false, false), (false, true), (true, false), (true, true)].into_iter().enumerate() {
        let inputs: Vec<(String, Ciphertext)> = ["a", "b", "c", "d"]
            .iter()
            .zip([a, b, true, false])
            .map(|(n, v)| (n.to_string(), plain(&server, &client, v)))
            .collect();
        let res = exec.eval(&server, &circuit, &inputs).unwrap();
        assert_eq!(decrypted(&client, &res), expect(&outs, &expected[i]));
        // the reference evaluator agrees
        let reference = clear.eval(&circuit, &bits(&["a", "b", "c", "d"], &[a, b, true, false])).unwrap();
        let as_bits: Vec<(String, bool)> =
            decrypted(&client, &res).into_iter().map(|(n, v)| (n, v == 1)).collect();
        assert_eq!(as_bits, reference);
    }
}

#[test]
fn and_gate_on_encrypted_inputs() {
    let (client, server) = gen_client_server(ParameterSet::Message1Carry1).unwrap();
    let circuit = parse_lbf(AND).unwrap();
    let got: Vec<u8> = vec![(false, false), (false, true), (true, false), (true, true)]
        .into_par_iter()
        .map(|(a, b)| {
            let inputs = vec![
                ("a".to_string(), client.encrypt(a as u8)),
                ("b".to_string(), client.encrypt(b as u8)),
            ];
            let res = FbsExecSeq::new().eval(&server, &circuit, &inputs).unwrap();
            assert_eq!(res.len(), 1);
            assert_eq!(res[0].0, "e");
            client.decrypt(&res[0].1).unwrap()
        })
        .collect();
    assert_eq!(got, vec![0, 0, 0, 1]);
}

#[test]
fn xor_gate_on_encrypted_inputs() {
    let (client, server) = gen_client_server(ParameterSet::Message1Carry1).unwrap();
    let circuit = parse_lbf(XOR).unwrap();
    let got: Vec<u8> = vec![(false, false), (false, true), (true, false), (true, true)]
        .into_par_iter()
        .map(|(a, b)| {
            let inputs = vec![
                ("b".to_string(), client.encrypt(b as u8)),
                ("a".to_string(), client.encrypt(a as u8)),
            ];
            let res = FbsExecSeq::new().eval(&server, &circuit, &inputs).unwrap();
            client.decrypt(&res[0].1).unwrap()
        })
        .collect();
    assert_eq!(got, vec![0, 1, 1, 0]);
}

#[test]
fn run_leaves_exactly_the_outputs() {
    let (client, server) = gen_client_server(ParameterSet::Message1Carry1).unwrap();
    let circuit = parse_lbf(SAMPLE).unwrap();
    let plan = Plan::build(&circuit).unwrap();
    let names: Vec<&str> = plan.names.iter().map(|n| n.as_str()).collect();
    assert_eq!(names, ["a", "b", "c", "d", "CONST1", "n1", "n2", "e", "f", "g", "h"]);
    assert_eq!(plan.outputs, [7, 8, 9, 10, 4]);
    // a and b are read twice, n1 once, n2 three times, an output counts once more
    assert_eq!(FbsExecSeq::find_succ_cnt(&plan), [2, 2, 0, 0, 1, 1, 3, 1, 1, 1, 1]);

    let inputs: Vec<(String, Ciphertext)> =
        ["a", "b", "c", "d"].iter().map(|n| (n.to_string(), plain(&server, &client, true))).collect();
    let store = FbsExecSeq::new().run(&server, &plan, &inputs).unwrap();
    let live: Vec<usize> = (0..store.slots.len()).filter(|s| store.slots[*s].is_some()).collect();
    assert_eq!(live, [4, 7, 8, 9, 10]);
    assert_eq!(store.ref_cnt, [0, 0, 0, 0, 1, 0, 0, 1, 1, 1, 1]);
}

#[test]
fn executor_errors() {
    let (client, server) = gen_client_server(ParameterSet::Message1Carry1).unwrap();
    let exec = FbsExecSeq::new();
    let circuit = parse_lbf(AND).unwrap();
    let a = ("a".to_string(), plain(&server, &client, true));
    let e = exec.eval(&server, &circuit, &vec![a.clone()]).unwrap_err();
    assert_eq!((e.kind, e.context.as_str()), (ErrorKind::MissingInput, "b"));

    let mut short = plain(&server, &client, true);
    short.lwe.pop();
    let e = exec.eval(&server, &circuit, &vec![a.clone(), ("b".to_string(), short)]).unwrap_err();
    assert_eq!((e.kind, e.context.as_str()), (ErrorKind::InputMismatch, "b"));

    // a table of nine entries is too long for the plaintext modulus 4
    let long = parse_lbf(".inputs a\n.outputs e\n.bootstrap a e\n000000001\n.end").unwrap();
    let e = exec.eval(&server, &long, &vec![a.clone()]).unwrap_err();
    assert_eq!(e.kind, ErrorKind::TableTooLong);

    let mixed = parse_lbf(".inputs a\n.outputs e\n.bootstrap a e\n000010\n.end").unwrap();
    let e = exec.eval(&server, &mixed, &vec![a.clone()]).unwrap_err();
    assert_eq!(e.kind, ErrorKind::TableInconsistent);

    let mut unchecked = Circuit::new();
    unchecked.add_output("x".to_string());
    let e = exec.eval(&server, &unchecked, &vec![a]).unwrap_err();
    assert_eq!((e.kind, e.context.as_str()), (ErrorKind::NameUndefined, "x"));
}

#[test]
fn values_of_all_signals_in_the_clear() {
    let circuit = parse_lbf(SAMPLE).unwrap();
    let plan = Plan::build(&circuit).unwrap();
    let exec = ClearExec::new();
    // a b c d CONST1 n1 n2 e f g h
    let vals = exec.run(&plan, &bits(&["d", "c", "b", "a"], &[true, false, false, true])).unwrap();
    assert_eq!(vals, [1, 0, 0, 1, 1, 2, 2, 0, 1, 1, 0]);
    let vals = exec.run(&plan, &bits(&["a", "b", "c", "d", "a"], &[true, true, true, true, false])).unwrap();
    assert_eq!(vals, [1, 1, 1, 1, 1, 3, 1, 1, 0, 0, 0]);
    let e = exec.run(&plan, &bits(&["a", "b", "d"], &[true, true, true])).unwrap_err();
    assert_eq!((e.kind, e.context.as_str()), (ErrorKind::MissingInput, "c"));
}

#[test]
fn subtracting_a_computed_ciphertext_adds_its_correcting_term() {
    let (client, server) = gen_client_server(ParameterSet::Message1Carry1).unwrap();
    // y = 1 - x, where x = a comes out of a bootstrap
    let circuit =
        parse_lbf(".inputs a\n.outputs y\n.lincomb a n\n1\n.bootstrap n x\n01\n.lincomb x y\n-1 1\n").unwrap();
    for a in [false, true] {
        let clear = ClearExec::new().eval(&circuit, &bits(&["a"], &[a])).unwrap();
        assert_eq!(clear, bits(&["y"], &[!a]));
        let inputs = vec![("a".to_string(), plain(&server, &client, a))];
        let res = FbsExecSeq::new().eval(&server, &circuit, &inputs).unwrap();
        // x is made for the messages modulo 2, not modulo 8: taking it off adds 2
        assert_eq!(decrypted(&client, &res), expect(&["y"], &[!a as u8 + 2]));
    }
}
