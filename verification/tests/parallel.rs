use std::sync::Arc;

use futures::future::try_join_all;
use lbf_eval::ciphertext::Ciphertext;
use lbf_eval::clear::ClearExec;
use lbf_eval::client::{gen_client_server, ParameterSet};
use lbf_eval::fbs_seq::FbsExecSeq;
use lbf_eval::parser::parse_lbf;
use lbf_eval::plan::{Plan, Step};
use lbf_eval::server::Server;
use lbf_eval::task::run_task;
use rand::{RngCore, SeedableRng};
use tokio::runtime::Builder;
use tokio::sync::broadcast::{channel, Receiver, Sender};

/// One task per step, each with a channel of one value that its readers
/// subscribe to before any task runs.
fn run_in_parallel(
    threads: usize,
    server: Arc<Server>,
    plan: Arc<Plan>,
    inputs: &[(String, Ciphertext)],
) -> Vec<(String, Ciphertext)> {
    let rt = Builder::new_multi_thread().worker_threads(threads).build().unwrap();
    let senders: Vec<Sender<Ciphertext>> = plan.steps.iter().map(|_| channel(1).0).collect();
    let mut reading: Vec<Vec<Receiver<Ciphertext>>> = plan
        .steps
        .iter()
        .map(|step| step.read_ids().iter().map(|id| senders[*id].subscribe()).collect())
        .collect();
    let mut collecting: Vec<Receiver<Ciphertext>> =
        plan.outputs.iter().map(|id| senders[*id].subscribe()).collect();

    let mut handles = Vec::new();
    // the last steps are started first: the order of the tasks must not matter
    for k in (0..plan.steps.len()).rev() {
        let (server, plan, sender) = (server.clone(), plan.clone(), senders[k].clone());
        let mut receivers = std::mem::take(&mut reading[k]);
        let given = inputs.iter().find(|(name, _)| *name == plan.names[k]).map(|(_, ct)| ct.clone());
        handles.push(rt.spawn(async move {
            let value = match &plan.steps[k] {
                Step::Input => given.unwrap(),
                step => {
                    let values = try_join_all(receivers.iter_mut().map(|r| r.recv())).await.unwrap();
                    let refs: Vec<&Ciphertext> = values.iter().collect();
                    run_task(&server, step, &refs).unwrap()
                }
            };
            if sender.receiver_count() > 0 {
                sender.send(value).map(|_| ()).map_err(|e| e.to_string())
            } else {
                Ok(())
            }
        }));
    }
    drop(senders);
    for res in rt.block_on(try_join_all(handles)).unwrap() {
        res.unwrap();
    }
    plan.outputs
        .iter()
        .zip(collecting.iter_mut())
        .map(|(id, recv)| (plan.names[*id].clone(), recv.blocking_recv().unwrap()))
        .collect()
}

/// `x10` is the exclusive or of the eleven inputs, one gate after the other.
fn xor_chain() -> String {
    let mut text = String::from(".inputs x0");
    for i in 1..=10 {
        text += &format!(" i{}", i);
    }
    text += "\n.outputs x10 x5\n";
    for i in 1..=10 {
        text += &format!(".lincomb x{} i{} n{}\n1 1\n.bootstrap n{} x{}\n010\n", i - 1, i, i, i, i);
    }
    text + ".end\n"
}

#[test]
fn sequential_and_parallel_agree_on_a_chain() {
    let (client, server) = gen_client_server(ParameterSet::Message1Carry1).unwrap();
    let server = Arc::new(server);
    let circuit = parse_lbf(&xor_chain()).unwrap();
    let plan = Arc::new(Plan::build(&circuit).unwrap());
    assert_eq!(plan.steps.len(), 31);
    let delta = (1u64 << 63) / server.pt_mod as u64;
    let mut rng = rand::rngs::StdRng::seed_from_u64(42);
    for _ in 0..100 {
        let bits: Vec<(String, bool)> =
            circuit.inputs.iter().map(|name| (name.clone(), rng.next_u32() % 2 == 1)).collect();
        // ciphertexts that anyone can read: a bootstrap of them takes no time
        let inputs: Vec<(String, Ciphertext)> = bits
            .iter()
            .map(|(name, bit)| {
                (name.clone(), Ciphertext::trivial(*bit as u64, server.lwe_size, delta, client.pt_mod_full, 0))
            })
            .collect();
        let sequential = FbsExecSeq::new().eval(&server, &circuit, &inputs).unwrap();
        let parallel = run_in_parallel(4, server.clone(), plan.clone(), &inputs);
        assert_eq!(sequential, parallel);

        let decrypted: Vec<(String, bool)> = parallel
            .iter()
            .map(|(name, ct)| (name.clone(), client.decrypt(ct).unwrap() == 1))
            .collect();
        assert_eq!(decrypted, ClearExec::new().eval(&circuit, &bits).unwrap());
        let parity = bits.iter().filter(|(_, bit)| *bit).count() % 2 == 1;
        assert_eq!(decrypted[0], ("x10".to_string(), parity));
    }
}
