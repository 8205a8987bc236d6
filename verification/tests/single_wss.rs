//! End-to-end scenarios for the single-secret WSS instance with n=4, f=1.
use wss_core::hashing::Hash32;
use wss_core::merkle::MerkleProof;
use wss_core::msg::{Effect, ProtMsg, WssMsg};
use wss_core::wss::WssReplica;

const N: usize = 4;
const F: usize = 1;

fn new_replicas() -> Vec<WssReplica> {
    (0..N).map(|i| WssReplica::new(N, F, i)).collect()
}

/// Deliver every queued effect until the network is silent.
fn run_to_quiescence(reps: &mut Vec<WssReplica>, queue: &mut Vec<Effect>) {
    let mut next = 0;
    while next < queue.len() {
        let Effect { dest, msg } = queue[next].clone_for_test();
        next += 1;
        let out = dispatch(&mut reps[dest], msg);
        queue.extend(out);
    }
}

fn dispatch(rep: &mut WssReplica, msg: ProtMsg) -> Vec<Effect> {
    match msg {
        ProtMsg::WssInit(m) => rep.process_wss_init(&m),
        ProtMsg::WssEcho(root, origin, sender) => rep.process_wssecho(&root, origin, sender),
        ProtMsg::WssReady(root, origin, sender) => rep.process_wssready(&root, origin, sender),
        ProtMsg::GatherEcho(_, _) => Vec::new(),
        _ => Vec::new(),
    }
}

trait CloneForTest {
    fn clone_for_test(&self) -> Self;
}

impl CloneForTest for Effect {
    fn clone_for_test(&self) -> Effect {
        Effect { dest: self.dest, msg: self.msg.clone_for_test() }
    }
}

impl CloneForTest for ProtMsg {
    fn clone_for_test(&self) -> ProtMsg {
        fn h(x: &Hash32) -> Hash32 {
            Hash32 { bytes: x.bytes.clone() }
        }
        fn p(x: &MerkleProof) -> MerkleProof {
            MerkleProof {
                item: h(&x.item),
                index: x.index,
                path: x.path.iter().map(h).collect(),
                root: h(&x.root),
            }
        }
        match self {
            ProtMsg::WssInit(m) => ProtMsg::WssInit(WssMsg {
                origin: m.origin,
                share: m.share,
                nonce: m.nonce,
                commitment: h(&m.commitment),
                proof: p(&m.proof),
            }),
            ProtMsg::WssEcho(r, o, s) => ProtMsg::WssEcho(h(r), *o, *s),
            ProtMsg::WssReady(r, o, s) => ProtMsg::WssReady(h(r), *o, *s),
            ProtMsg::GatherEcho(v, s) => ProtMsg::GatherEcho(v.clone(), *s),
            _ => panic!("not a single-path message"),
        }
    }
}

fn dealer_effects(reps: &Vec<WssReplica>, dealer: usize, secret: u64, coeff: u64) -> Vec<Effect> {
    let coeffs = vec![coeff];
    let nonces = vec![11, 22, 33, 44];
    reps[dealer].start_wss_with(secret, &coeffs, &nonces)
}

#[test]
fn s1_happy_path_all_terminate() {
    let mut reps = new_replicas();
    let mut queue = dealer_effects(&reps, 0, 42, 7);
    run_to_quiescence(&mut reps, &mut queue);
    for i in 0..N {
        assert!(reps[i].terminated[0], "replica {} did not terminate origin 0", i);
        let acc = reps[i].accepted[0].as_ref().expect("accepted record missing");
        let rec = acc.record.as_ref().expect("own share missing");
        assert_ne!(rec.share, 0);
        // share i is the polynomial 42 + 7x at x = i+1
        assert_eq!(rec.share, 42 + 7 * (i as u64 + 1));
        assert_eq!(rec.nonce, [11u64, 22, 33, 44][i]);
    }
    // every replica agrees on the dealer's root
    let root0 = reps[0].accepted[0].as_ref().unwrap().root.bytes.clone();
    for i in 1..N {
        assert_eq!(reps[i].accepted[0].as_ref().unwrap().root.bytes, root0);
    }
    // a message for a terminated origin is silently dropped
    let late = ProtMsg::WssReady(Hash32 { bytes: root0 }, 0, 2);
    let out = dispatch(&mut reps[1], late);
    assert!(out.is_empty());
}

#[test]
fn random_dealer_round_terminates() {
    // the dealer samples its secret, coefficients and nonces itself
    let mut reps = new_replicas();
    let mut queue = reps[3].start_wss();
    run_to_quiescence(&mut reps, &mut queue);
    for i in 0..N {
        assert!(reps[i].terminated[3], "replica {} did not terminate origin 3", i);
    }
}

#[test]
fn s2_missing_init_still_terminates() {
    let mut reps = new_replicas();
    let inits = dealer_effects(&reps, 0, 42, 7);
    let mut queue: Vec<Effect> = Vec::new();
    let mut held_back = None;
    for e in inits {
        if e.dest == 2 {
            held_back = Some(e);
        } else {
            queue.push(e);
        }
    }
    // replicas 0, 1, 3 run first, but READYs stay in flight: replica 2 sees
    // three ECHOs before its INIT
    let mut held_readys: Vec<Effect> = Vec::new();
    let mut next = 0;
    while next < queue.len() {
        let Effect { dest, msg } = queue[next].clone_for_test();
        next += 1;
        if matches!(msg, ProtMsg::WssReady(..)) {
            held_readys.push(Effect { dest, msg });
            continue;
        }
        let out = dispatch(&mut reps[dest], msg);
        queue.extend(out);
    }
    assert!(reps[2].node_secrets[0].is_none());
    assert!(reps[2].echos[0][0].is_some(), "echo from 0 should be buffered");
    assert!(!reps[2].terminated[0]);
    // now the INIT arrives late, verifies, and the READYs are delivered
    let mut queue = vec![held_back.unwrap()];
    queue.extend(held_readys);
    run_to_quiescence(&mut reps, &mut queue);
    for i in 0..N {
        assert!(reps[i].terminated[0], "replica {} did not terminate origin 0", i);
    }
    assert!(reps[2].accepted[0].as_ref().unwrap().record.is_some());
}

#[test]
fn s3_byzantine_commitment_rejected_and_amplified() {
    let mut reps = new_replicas();
    let inits = dealer_effects(&reps, 0, 42, 7);
    let mut queue: Vec<Effect> = Vec::new();
    for mut e in inits {
        if e.dest == 3 {
            // the dealer equivocates: replica 3 gets a corrupted commitment
            if let ProtMsg::WssInit(ref mut m) = e.msg {
                m.commitment.bytes[0] ^= 0xff;
            }
        }
        queue.push(e);
    }
    run_to_quiescence(&mut reps, &mut queue);
    // replica 3 rejected the INIT and never stored a share
    assert!(reps[3].node_secrets[0].is_none());
    // yet every replica, replica 3 included, terminates via READY amplification
    for i in 0..N {
        assert!(reps[i].terminated[0], "replica {} did not terminate origin 0", i);
    }
    assert!(reps[3].accepted[0].as_ref().unwrap().record.is_none());
    let root0 = reps[0].accepted[0].as_ref().unwrap().root.bytes.clone();
    assert_eq!(reps[3].accepted[0].as_ref().unwrap().root.bytes, root0);
}

#[test]
fn s4_root_equivocation_stalls() {
    let mut reps = new_replicas();
    let init_a = dealer_effects(&reps, 0, 42, 7);
    let init_b = dealer_effects(&reps, 0, 43, 9);
    let mut queue: Vec<Effect> = Vec::new();
    for e in init_a {
        if e.dest <= 1 {
            queue.push(e);
        }
    }
    for e in init_b {
        if e.dest >= 2 {
            queue.push(e);
        }
    }
    run_to_quiescence(&mut reps, &mut queue);
    // no root gathers 2f+1 = 3 ECHOs, so nobody sends READY or terminates
    for i in 0..N {
        assert!(!reps[i].terminated[0], "replica {} terminated under equivocation", i);
        assert!(!reps[i].ready_sent[0]);
    }
}

#[test]
fn s6_duplicate_echo_is_no_op() {
    let mut reps = new_replicas();
    let inits = dealer_effects(&reps, 0, 42, 7);
    // deliver INITs to replicas 0 and 1; keep replica 0's echo towards 1
    let mut echo_from_0 = None;
    for e in inits {
        if e.dest > 1 {
            continue;
        }
        let dealt_to = e.dest;
        let Effect { dest, msg } = e;
        let out = dispatch(&mut reps[dest], msg);
        if dealt_to == 0 {
            echo_from_0 = out.into_iter().find(|x| x.dest == 1);
        }
    }
    let echo = echo_from_0.expect("echo from replica 0 towards replica 1");
    let count_entries = |rep: &WssReplica| -> usize {
        rep.echos[0].iter().filter(|e| e.is_some()).count()
    };
    // replica 1 holds only its own attestation so far
    assert_eq!(count_entries(&reps[1]), 1);
    for round in 0..5 {
        let Effect { dest, msg } = echo.clone_for_test();
        let out = dispatch(&mut reps[dest], msg);
        assert!(out.is_empty());
        // after the first delivery the map holds two entries and never grows
        assert_eq!(count_entries(&reps[1]), 2, "round {}", round);
    }
}

#[test]
fn init_replay_is_no_op() {
    let mut reps = new_replicas();
    let inits = dealer_effects(&reps, 0, 42, 7);
    let init1 = inits.into_iter().find(|e| e.dest == 1).unwrap();
    let replay = init1.clone_for_test();
    if let ProtMsg::WssInit(m) = init1.msg {
        let out = reps[1].process_wss_init(&m);
        assert_eq!(out.len(), N);
    } else {
        panic!("expected INIT");
    }
    let share_before = reps[1].node_secrets[0].as_ref().unwrap().share;
    if let ProtMsg::WssInit(m) = replay.msg {
        let out = reps[1].process_wss_init(&m);
        assert!(out.is_empty(), "replayed INIT must produce nothing");
    }
    assert_eq!(reps[1].node_secrets[0].as_ref().unwrap().share, share_before);
}
