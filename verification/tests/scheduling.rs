use valence::prover::{
    elf_bytes, elf_proof_request, elf_verifying_key_request, proof_job_step, proof_outcome,
    proof_request, verifying_key_outcome, verifying_key_request, worker_action, Circuit,
    ProofStep, Request, WorkerAction, WorkerJob,
};
use valence::cache::KeysCache;
use valence::prover::{
    proof_first_answer, proof_second_answer, vk_first_answer, vk_second_answer, ClientError,
    Exchange, ProofType, ProverService, Response,
};
use valence::scaling::{ScaleAction, Scaler};
use valence::scheduler::{Client, Cluster, ProverScheduler, SchedulerError};

fn cluster(addrs: &[&str]) -> Cluster {
    let mut c = Cluster::default();
    for a in addrs {
        c.push(a);
    }
    c
}

fn addr(c: Option<Client>) -> Option<String> {
    c.map(|c| c.addr)
}

#[test]
fn client_keeps_its_address() {
    let c = Client::new("ws://prover:1");
    assert_eq!(c.address(), "ws://prover:1");
    assert_eq!(c.clone(), c);
    let s = ProverService::new("ws://prover:2");
    assert_eq!(s.get_client().address(), "ws://prover:2");
}

#[test]
fn rotation_serves_clients_in_turn() {
    let mut c = cluster(&["a", "b", "c"]);
    let served: Vec<Option<String>> = (0..7).map(|_| addr(c.rotate())).collect();
    let expected: Vec<Option<String>> = ["a", "b", "c", "a", "b", "c", "a"]
        .iter()
        .map(|s| Some(s.to_string()))
        .collect();
    assert_eq!(served, expected);
}

#[test]
fn rotation_of_an_empty_cluster_serves_nothing() {
    let mut c = Cluster::default();
    assert!(c.rotate().is_none());
    assert!(c.rotate().is_none());
    c.push("x");
    assert_eq!(addr(c.rotate()), Some("x".to_string()));
}

#[test]
fn rotation_wraps_after_removal() {
    let mut c = cluster(&["a", "b", "c"]);
    assert_eq!(addr(c.rotate()), Some("a".to_string()));
    assert_eq!(addr(c.rotate()), Some("b".to_string()));
    assert_eq!(addr(c.remove("c")), Some("c".to_string()));
    // the cursor now points past the end: rotation starts over
    assert_eq!(addr(c.rotate()), Some("a".to_string()));
}

#[test]
fn pop_and_remove_take_the_first_match() {
    let mut c = cluster(&["a", "b", "a"]);
    assert_eq!(addr(c.remove("a")), Some("a".to_string()));
    let left: Vec<&str> = c.clients().iter().map(|c| c.address()).collect();
    assert_eq!(left, vec!["b", "a"]);
    assert!(c.remove("z").is_none());
    assert_eq!(addr(c.pop()), Some("b".to_string()));
    assert_eq!(addr(c.pop()), Some("a".to_string()));
    assert!(c.pop().is_none());
}

#[test]
fn scheduler_prefers_the_owners_cluster() {
    let mut s = ProverScheduler::default();
    assert_eq!(s.get_client(None).unwrap_err(), SchedulerError::NoPublicClient);
    s.push(None, "public-1");
    s.push(Some(b"alice"), "alice-1");
    s.push(Some(b"alice"), "alice-2");

    assert_eq!(s.get_client(Some(b"alice")).unwrap().addr, "alice-1");
    assert_eq!(s.get_client(Some(b"alice")).unwrap().addr, "alice-2");
    assert_eq!(s.get_client(Some(b"alice")).unwrap().addr, "alice-1");
    assert_eq!(s.get_client(Some(b"bob")).unwrap().addr, "public-1");
    assert_eq!(s.get_client(None).unwrap().addr, "public-1");

    let a = s.allocated(Some(b"alice"));
    assert_eq!(a.public, vec!["public-1".to_string()]);
    assert_eq!(a.owned, vec!["alice-1".to_string(), "alice-2".to_string()]);
    let b = s.allocated(Some(b"bob"));
    assert!(b.owned.is_empty());

    assert_eq!(s.remove(Some(b"alice"), "alice-1"), Some("alice-1".to_string()));
    assert_eq!(s.remove(Some(b"alice"), "alice-1"), None);
    assert_eq!(s.remove(Some(b"bob"), "alice-2"), None);
    assert_eq!(s.remove(None, "public-1"), Some("public-1".to_string()));
    assert_eq!(s.get_client(Some(b"alice")).unwrap().addr, "alice-2");
    assert_eq!(s.allocated(None).public, Vec::<String>::new());
}

#[test]
fn empty_owned_cluster_falls_back_to_public() {
    let mut s = ProverScheduler::default();
    s.push(Some(b"carol"), "carol-1");
    assert_eq!(s.remove(Some(b"carol"), "carol-1"), Some("carol-1".to_string()));
    assert_eq!(s.get_client(Some(b"carol")).unwrap_err(), SchedulerError::NoPublicClient);
    assert_eq!(SchedulerError::NoPublicClient.message(), "no available public client");
    s.push(None, "p");
    assert_eq!(s.get_client(Some(b"carol")).unwrap().addr, "p");
}

#[test]
fn scaler_fills_up_to_the_minimum() {
    let mut s = Scaler::new().with_min_workers(3).with_max_workers(8);
    assert_eq!(s.scale(1, 0, 0), ScaleAction::Spawn(2));
    assert_eq!(s.scale(0, 0, -5), ScaleAction::Spawn(3));
}

#[test]
fn scaler_grows_up_to_the_maximum() {
    let mut s = Scaler::new();
    assert_eq!(s.min_workers, 1);
    assert_eq!(s.max_workers, 8);
    assert_eq!(s.target_queue_size, 2);
    assert_eq!(s.scale(2, 0, 3), ScaleAction::Spawn(3));
    assert_eq!(s.scale(6, 0, 5), ScaleAction::Spawn(2));
    assert_eq!(s.scale(8, 0, 5), ScaleAction::Keep);
    assert_eq!(s.scale(10, 0, 1), ScaleAction::Keep);
    assert_eq!(s.scale(4, 0, 0), ScaleAction::Keep);
}

#[test]
fn scaler_shrinks_counting_pending_stops() {
    let mut s = Scaler::new().with_min_workers(2);
    assert_eq!(s.scale(6, 0, -3), ScaleAction::Kill(3));
    assert_eq!(s.kill_pending, 3);
    // three stops are still pending: nothing more to ask
    assert_eq!(s.scale(6, 0, -3), ScaleAction::Keep);
    // two stops were acknowledged
    assert_eq!(s.scale(4, 2, -10), ScaleAction::Kill(1));
    assert_eq!(s.kill_pending, 2);
    assert_eq!(s.queue_error(5), 3);
    assert_eq!(s.with_target_queue_size(9).queue_error(5), -4);
}

#[test]
fn keys_cache_evicts_the_least_recently_used() {
    let mut c = KeysCache::new(0);
    for i in 0..5u8 {
        c.set([i; 32], &[i]);
    }
    assert_eq!(c.get(&[0; 32]), Some(vec![0]));
    c.set([9; 32], &[9]);
    // key 1 was the least recently used
    assert_eq!(c.get(&[1; 32]), None);
    assert_eq!(c.get(&[0; 32]), Some(vec![0]));
    assert_eq!(c.get(&[9; 32]), Some(vec![9]));
    c.set([9; 32], &[10]);
    assert_eq!(c.get(&[9; 32]), Some(vec![10]));
    assert_eq!(KeysCache::MIN_CAP, 5);
}

#[test]
fn proof_exchange_follows_the_answers() {
    assert!(matches!(proof_first_answer(Response::Proof("p".into())), Exchange::Done(p) if p == "p"));
    assert!(matches!(proof_first_answer(Response::ProvingKeyNotCached), Exchange::SendCircuit));
    assert!(matches!(
        proof_first_answer(Response::Error("boom".into())),
        Exchange::Failed(ClientError::Processing(m)) if m == "boom"
    ));
    assert!(matches!(
        proof_first_answer(Response::Ack),
        Exchange::Failed(ClientError::Unexpected(Response::Ack))
    ));
    assert_eq!(proof_second_answer(Response::Proof("q".into())).unwrap(), "q");
    assert!(matches!(
        proof_second_answer(Response::ProvingKeyNotCached),
        Err(ClientError::Unexpected(Response::ProvingKeyNotCached))
    ));
    assert!(matches!(vk_first_answer(Response::VerifyingKey("k".into())), Exchange::Done(k) if k == "k"));
    assert!(matches!(vk_first_answer(Response::Proof("p".into())), Exchange::Failed(_)));
    assert_eq!(vk_second_answer(Response::VerifyingKey("k".into())).unwrap(), "k");
    assert!(matches!(vk_second_answer(Response::Error("e".into())), Err(ClientError::Processing(m)) if m == "e"));
    assert_eq!(ClientError::processing_message("bad"), "error processing request: bad");
    assert_eq!(ProofType::default(), ProofType::Groth16);
}

#[test]
fn proof_requests_carry_the_encoded_witnesses() {
    let id = [7u8; 32];
    match proof_request(id, &[1, 2, 3], ProofType::Groth16, "rec".to_string()) {
        Request::Sp1Proof { circuit: Circuit::Identifier(c), witnesses, t, recursive } => {
            assert_eq!(c, id);
            assert_eq!(witnesses, "AQID");
            assert_eq!(t, ProofType::Groth16);
            assert_eq!(recursive, "rec");
        }
        other => panic!("unexpected request {other:?}"),
    }
    match elf_proof_request(id, b"elf", &[1, 2, 3, 4], ProofType::Compressed, String::new()) {
        Request::Sp1Proof { circuit: Circuit::Elf { identifier, bytes }, witnesses, t, .. } => {
            assert_eq!(identifier, id);
            assert_eq!(bytes, "ZWxm");
            assert_eq!(witnesses, "AQIDBA==");
            assert_eq!(t, ProofType::Compressed);
        }
        other => panic!("unexpected request {other:?}"),
    }
    assert!(matches!(
        verifying_key_request(id),
        Request::Sp1GetVerifyingKey { circuit: Circuit::Identifier(c) } if c == id
    ));
    match elf_verifying_key_request(id, b"") {
        Request::Sp1GetVerifyingKey { circuit: Circuit::Elf { identifier, bytes } } => {
            assert_eq!(identifier, id);
            assert_eq!(bytes, "");
        }
        other => panic!("unexpected request {other:?}"),
    }
}

#[test]
fn worker_acknowledges_close_and_loads_keys_otherwise() {
    assert!(matches!(worker_action(Request::Close), WorkerAction::Reply(Response::Ack)));
    let id = [3u8; 32];
    match worker_action(Request::Sp1Proof {
        circuit: Circuit::Identifier(id),
        witnesses: "AQID".to_string(),
        t: ProofType::Groth16,
        recursive: String::new(),
    }) {
        WorkerAction::LoadKey { circuit: Circuit::Identifier(c), job: WorkerJob::Prove { witnesses } } => {
            assert_eq!(c, id);
            assert_eq!(witnesses, "AQID");
        }
        other => panic!("unexpected action {other:?}"),
    }
    assert!(matches!(
        worker_action(Request::Sp1GetVerifyingKey { circuit: Circuit::Identifier(id) }),
        WorkerAction::LoadKey { job: WorkerJob::VerifyingKey, .. }
    ));
    assert_eq!(elf_bytes("ZWxm"), Some(b"elf".to_vec()));
    assert_eq!(elf_bytes("not base64!"), None);
}

#[test]
fn worker_proof_steps_follow_each_outcome() {
    assert!(matches!(proof_job_step(false, "AQID"), ProofStep::Reply(Response::ProvingKeyNotCached)));
    match proof_job_step(true, "AQID") {
        ProofStep::Prove(w) => assert_eq!(w, vec![1, 2, 3]),
        other => panic!("unexpected step {other:?}"),
    }
    match proof_job_step(true, "*") {
        ProofStep::Reply(Response::Error(m)) => assert!(m.starts_with("error decoding the witnesses: ")),
        other => panic!("unexpected step {other:?}"),
    }
    match proof_outcome(Err("boom".to_string()), Ok(())) {
        Response::Error(m) => assert_eq!(m, "failed computing gpu proof: boom"),
        other => panic!("unexpected answer {other:?}"),
    }
    match proof_outcome(Ok(vec![1, 2, 3]), Err("bad".to_string())) {
        Response::Error(m) => assert_eq!(m, "Proof sanity check failed: bad"),
        other => panic!("unexpected answer {other:?}"),
    }
    match proof_outcome(Ok(vec![1, 2, 3]), Ok(())) {
        Response::Proof(p) => assert_eq!(p, "AQID"),
        other => panic!("unexpected answer {other:?}"),
    }
    assert!(matches!(verifying_key_outcome(None), Response::ProvingKeyNotCached));
    match verifying_key_outcome(Some(vec![0xff])) {
        Response::VerifyingKey(k) => assert_eq!(k, "/w=="),
        other => panic!("unexpected answer {other:?}"),
    }
}
