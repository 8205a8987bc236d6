//! End-to-end scenarios for the batched WSS instance with n=4, f=1.
use sha2::Digest;
use wss_core::batch::BatchReplica;
use wss_core::hashing::Hash32;
use wss_core::merkle::{MerkleProof, MerkleTree};
use wss_core::msg::{CtrbcMsg, Effect, ProtMsg};

const N: usize = 4;
const F: usize = 1;
const BATCH: usize = 1;

fn new_replicas() -> Vec<BatchReplica> {
    (0..N).map(|i| BatchReplica::new(N, F, i, BATCH)).collect()
}

fn h(x: &Hash32) -> Hash32 {
    Hash32 { bytes: x.bytes.clone() }
}

fn p(x: &MerkleProof) -> MerkleProof {
    MerkleProof {
        item: h(&x.item),
        index: x.index,
        path: x.path.iter().map(h).collect(),
        root: h(&x.root),
    }
}

fn c(x: &CtrbcMsg) -> CtrbcMsg {
    CtrbcMsg { shard: x.shard.clone(), proof: p(&x.proof), round: x.round, origin: x.origin }
}

fn clone_msg(m: &ProtMsg) -> ProtMsg {
    match m {
        ProtMsg::BatchWssInit(ct, mr) => ProtMsg::BatchWssInit(c(ct), h(mr)),
        ProtMsg::BatchWssEcho(ct, mr, s) => ProtMsg::BatchWssEcho(c(ct), h(mr), *s),
        ProtMsg::BatchWssReady(ct, mr, s) => ProtMsg::BatchWssReady(c(ct), h(mr), *s),
        ProtMsg::BatchWssReconstruct(ct, mr, s) => ProtMsg::BatchWssReconstruct(c(ct), h(mr), *s),
        ProtMsg::GatherEcho(v, s) => ProtMsg::GatherEcho(v.clone(), *s),
        _ => panic!("not a batched message"),
    }
}

fn dispatch(rep: &mut BatchReplica, msg: ProtMsg, gathers: &mut Vec<(usize, Vec<usize>)>) -> Vec<Effect> {
    match msg {
        ProtMsg::BatchWssInit(ct, mr) => rep.process_batchwssinit(&ct, &mr),
        ProtMsg::BatchWssEcho(ct, mr, s) => rep.process_batch_wssecho(&ct, &mr, s),
        ProtMsg::BatchWssReady(ct, mr, s) => rep.process_batchwssready(&ct, &mr, s),
        ProtMsg::GatherEcho(v, s) => {
            gathers.push((s, v));
            Vec::new()
        },
        _ => Vec::new(),
    }
}

fn run_to_quiescence(
    reps: &mut Vec<BatchReplica>,
    queue: &mut Vec<Effect>,
    gathers: &mut Vec<(usize, Vec<usize>)>,
) {
    let mut next = 0;
    while next < queue.len() {
        let dest = queue[next].dest;
        let msg = clone_msg(&queue[next].msg);
        next += 1;
        let out = dispatch(&mut reps[dest], msg, gathers);
        queue.extend(out);
    }
}

fn payload_for(dealer: usize) -> Vec<u8> {
    (0..(32 * N * BATCH)).map(|i| (i as u8).wrapping_add(dealer as u8)).collect()
}

#[test]
fn batch_happy_path_terminates_with_payload() {
    let mut reps = new_replicas();
    let payload = payload_for(0);
    let mut queue = reps[0].start_batch_wss(payload.clone());
    let mut gathers = Vec::new();
    run_to_quiescence(&mut reps, &mut queue, &mut gathers);
    for i in 0..N {
        assert!(reps[i].terminated[0], "replica {} did not terminate", i);
        let acc = reps[i].accepted[0].as_ref().unwrap();
        assert_eq!(acc.payload, payload, "replica {} accepted a different payload", i);
    }
    // a single instance cannot reach the n-f gather threshold
    assert!(gathers.is_empty());
    // each terminating replica revealed its own shard: replica 0 was sent
    // one BatchWssReconstruct per replica, each carrying a valid proof
    let reveals: Vec<&Effect> = queue
        .iter()
        .filter(|e| e.dest == 0 && matches!(e.msg, ProtMsg::BatchWssReconstruct(..)))
        .collect();
    assert_eq!(reveals.len(), N);
    for e in &reveals {
        if let ProtMsg::BatchWssReconstruct(ct, mr, sender) = &e.msg {
            assert_eq!(ct.proof.index, *sender);
            assert!(ct.proof.validate());
            assert_eq!(mr.bytes, reps[0].accepted[0].as_ref().unwrap().master_root.bytes);
        }
    }
}

#[test]
fn batch_non_codeword_dealer_fails_permanently() {
    // a Byzantine dealer Merkle-trees four arbitrary equal-length byte
    // strings that form no Reed-Solomon codeword; every proof is genuine,
    // so INIT and ECHO pass, but the 2f+1 rebuild re-hashes to a different
    // root and the instance is marked permanently failed
    let fake_shards: Vec<Vec<u8>> = (0..N)
        .map(|i| (0..40u8).map(|b| b.wrapping_mul(17).wrapping_add(i as u8)).collect())
        .collect();
    let items: Vec<Hash32> = fake_shards
        .iter()
        .map(|s| Hash32 { bytes: sha2::Sha256::digest(s.as_slice()).to_vec() })
        .collect();
    let tree = MerkleTree::build(items);
    let root = tree.root();
    let mut reps = new_replicas();
    let mut queue: Vec<Effect> = (0..N)
        .map(|i| Effect {
            dest: i,
            msg: ProtMsg::BatchWssInit(
                CtrbcMsg {
                    shard: fake_shards[i].clone(),
                    proof: tree.gen_proof(i),
                    round: 0,
                    origin: 0,
                },
                h(&root),
            ),
        })
        .collect();
    let mut gathers = Vec::new();
    run_to_quiescence(&mut reps, &mut queue, &mut gathers);
    for i in 0..N {
        assert!(reps[i].node_secrets[0].is_some(), "replica {} should accept the INIT", i);
        assert!(!reps[i].terminated[0], "replica {} must not terminate", i);
        assert!(reps[i].failed[0], "replica {} must mark the origin failed", i);
        assert!(reps[i].accepted[0].is_none());
    }
}

#[test]
fn batch_missing_init_reconstructs_own_shard() {
    let mut reps = new_replicas();
    let payload = payload_for(0);
    let inits = reps[0].start_batch_wss(payload.clone());
    let mut queue: Vec<Effect> = Vec::new();
    for e in inits {
        if e.dest != 3 {
            queue.push(e);
        }
        // replica 3 never receives its INIT
    }
    let mut gathers = Vec::new();
    run_to_quiescence(&mut reps, &mut queue, &mut gathers);
    assert!(reps[3].node_secrets[0].is_none());
    for i in 0..N {
        assert!(reps[i].terminated[0], "replica {} did not terminate", i);
        assert_eq!(reps[i].accepted[0].as_ref().unwrap().payload, payload);
    }
}

#[test]
fn s5_three_terminations_emit_one_gather_echo() {
    let mut reps = new_replicas();
    let mut gathers_at_0: Vec<(usize, Vec<usize>)> = Vec::new();
    // dealers 0, 1, 2 disperse; dealer 3 stays silent for now
    for dealer in 0..3 {
        let mut queue = reps[dealer].start_batch_wss(payload_for(dealer));
        let mut next = 0;
        while next < queue.len() {
            let dest = queue[next].dest;
            let msg = clone_msg(&queue[next].msg);
            next += 1;
            let out = if dest == 0 {
                dispatch(&mut reps[0], msg, &mut gathers_at_0)
            } else {
                let mut sink = Vec::new();
                dispatch(&mut reps[dest], msg, &mut sink)
            };
            queue.extend(out);
        }
    }
    for i in 0..N {
        assert!(reps[i].sent_gather_echo, "replica {} sent no GatherEcho", i);
    }
    // replica 0 received exactly one GatherEcho from itself, listing 0, 1, 2
    let own: Vec<&(usize, Vec<usize>)> =
        gathers_at_0.iter().filter(|(s, _)| *s == 0).collect();
    assert_eq!(own.len(), 1);
    assert_eq!(own[0].1, vec![0, 1, 2]);
    // the fourth dealer terminating later does not emit a second GatherEcho
    let mut queue = reps[3].start_batch_wss(payload_for(3));
    let mut next = 0;
    while next < queue.len() {
        let dest = queue[next].dest;
        let msg = clone_msg(&queue[next].msg);
        next += 1;
        let out = if dest == 0 {
            dispatch(&mut reps[0], msg, &mut gathers_at_0)
        } else {
            let mut sink = Vec::new();
            dispatch(&mut reps[dest], msg, &mut sink)
        };
        queue.extend(out);
    }
    assert!(reps[0].terminated[3]);
    let own: Vec<&(usize, Vec<usize>)> =
        gathers_at_0.iter().filter(|(s, _)| *s == 0).collect();
    assert_eq!(own.len(), 1, "GatherEcho must be emitted exactly once");
}

#[test]
fn batch_duplicate_echo_is_no_op() {
    let mut reps = new_replicas();
    let inits = reps[0].start_batch_wss(payload_for(0));
    // deliver INITs to replicas 0 and 1 only
    let mut echo_from_0 = None;
    for e in inits {
        if e.dest > 1 {
            continue;
        }
        let dealt_to = e.dest;
        let msg = clone_msg(&e.msg);
        let mut sink = Vec::new();
        let out = dispatch(&mut reps[e.dest], msg, &mut sink);
        if dealt_to == 0 {
            echo_from_0 = out.into_iter().find(|x| x.dest == 1);
        }
    }
    let echo = echo_from_0.expect("echo from replica 0 towards replica 1");
    let count = |rep: &BatchReplica| rep.echos[0].iter().filter(|e| e.is_some()).count();
    assert_eq!(count(&reps[1]), 1);
    for round in 0..5 {
        let msg = clone_msg(&echo.msg);
        let mut sink = Vec::new();
        let out = dispatch(&mut reps[1], msg, &mut sink);
        assert!(out.is_empty());
        assert_eq!(count(&reps[1]), 2, "round {}", round);
    }
}

#[test]
fn batch_wrong_root_init_rejected() {
    let mut reps = new_replicas();
    let inits = reps[0].start_batch_wss(payload_for(0));
    let mut init3 = None;
    for e in inits {
        if e.dest == 3 {
            init3 = Some(e);
        }
    }
    if let Some(Effect { msg: ProtMsg::BatchWssInit(ct, mut mr), .. }) = init3 {
        // a master root that does not match the proof is discarded
        mr.bytes[0] ^= 0x01;
        let out = reps[3].process_batchwssinit(&ct, &mr);
        assert!(out.is_empty());
        assert!(reps[3].node_secrets[0].is_none());
    } else {
        panic!("expected a BatchWssInit for replica 3");
    }
}
