//! Protocol messages and the outbound effects of the state machines.
//!
//! A handler never performs I/O: it returns a list of `Effect`s, one
//! addressed message each, and the surrounding driver delivers them —
//! including the one addressed to the sender itself, so self-delivery runs
//! through the same handler path as remote delivery.
use vstd::prelude::*;
use crate::hashing::Hash32;
use crate::merkle::MerkleProof;

verus! {

/// A replica identifier in `[0, n)`.
pub type Replica = usize;

/// Payload of a single-secret WSS INIT: the recipient's share, the blinding
/// nonce, the commitment `H(be8(nonce + share))`, and the Merkle proof that
/// the commitment is the recipient's leaf under the dealer's root.
pub struct WssMsg {
    pub origin: Replica,
    pub share: u64,
    pub nonce: u64,
    pub commitment: Hash32,
    pub proof: MerkleProof,
}

/// An erasure-coded reliable-broadcast message: one shard with its
/// inclusion proof.
pub struct CtrbcMsg {
    pub shard: Vec<u8>,
    pub proof: MerkleProof,
    pub round: u32,
    pub origin: Replica,
}

/// The protocol's tagged message sum.
pub enum ProtMsg {
    /// Single-secret INIT from the dealer.
    WssInit(WssMsg),
    /// Light ECHO attesting a root: `(root, origin, sender)`.
    WssEcho(Hash32, Replica, Replica),
    /// Light READY attesting a root: `(root, origin, sender)`.
    WssReady(Hash32, Replica, Replica),
    /// Batched INIT: the recipient's shard plus the master root.
    BatchWssInit(CtrbcMsg, Hash32),
    /// Batched ECHO carrying the sender's own shard.
    BatchWssEcho(CtrbcMsg, Hash32, Replica),
    /// Batched READY carrying the sender's own shard.
    BatchWssReady(CtrbcMsg, Hash32, Replica),
    /// Share revelation after batched termination.
    BatchWssReconstruct(CtrbcMsg, Hash32, Replica),
    /// Trigger for the downstream gather layer: the terminated origins.
    GatherEcho(Vec<Replica>, Replica),
}

/// One outbound message of a handler: deliver `msg` to `dest`.
pub struct Effect {
    pub dest: Replica,
    pub msg: ProtMsg,
}

/// `es` is a light-ECHO broadcast of `root` to every replica.
pub open spec fn echo_bcast(es: Seq<Effect>, n: int, root: Seq<u8>, origin: Replica, me: Replica) -> bool {
    &&& es.len() == n
    &&& forall|q: int| 0 <= q < n ==> (#[trigger] es[q]).dest == q
    &&& forall|q: int| 0 <= q < n
        ==> ((#[trigger] es[q]).msg matches ProtMsg::WssEcho(r, o, s)
            && r@ == root && o == origin && s == me)
}

/// `es` is a light-READY broadcast of `root` to every replica.
pub open spec fn ready_bcast(es: Seq<Effect>, n: int, root: Seq<u8>, origin: Replica, me: Replica) -> bool {
    &&& es.len() == n
    &&& forall|q: int| 0 <= q < n ==> (#[trigger] es[q]).dest == q
    &&& forall|q: int| 0 <= q < n
        ==> ((#[trigger] es[q]).msg matches ProtMsg::WssReady(r, o, s)
            && r@ == root && o == origin && s == me)
}

/// The ascending list of the indices marked true.
pub open spec fn marked_list(terms: Seq<bool>) -> Seq<usize>
    decreases terms.len(),
{
    if terms.len() == 0 {
        Seq::empty()
    } else {
        marked_list(terms.drop_last())
            + if terms.last() { seq![(terms.len() - 1) as usize] } else { Seq::empty() }
    }
}

/// Every entry of the marked list lies below the length of `terms`.
pub proof fn lemma_marked_list_bound(terms: Seq<bool>)
    ensures
        forall|w: int| 0 <= w < marked_list(terms).len()
            ==> (#[trigger] marked_list(terms)[w]) < terms.len(),
    decreases terms.len(),
{
    if terms.len() > 0 {
        let pre = terms.drop_last();
        let front = marked_list(pre);
        lemma_marked_list_bound(pre);
        assert forall|w: int| 0 <= w < marked_list(terms).len()
            implies (#[trigger] marked_list(terms)[w]) < terms.len() by {
            if w < front.len() {
                assert(marked_list(terms)[w] == front[w]);
            } else {
                assert(terms.last());
                assert(marked_list(terms)[w] == (terms.len() - 1) as usize);
            }
        }
    }
}

/// An index is in the marked list exactly when it is marked.
pub proof fn lemma_marked_list_contains(terms: Seq<bool>, j: int)
    requires
        0 <= j < terms.len(),
        terms.len() <= usize::MAX,
    ensures
        terms[j] <==> marked_list(terms).contains(j as usize),
    decreases terms.len(),
{
    let pre = terms.drop_last();
    let l = terms.len() - 1;
    let whole = marked_list(terms);
    let front = marked_list(pre);
    lemma_marked_list_bound(pre);
    if j < l {
        lemma_marked_list_contains(pre, j);
        assert(pre[j] == terms[j]);
        if pre[j] {
            let w = choose|w: int| 0 <= w < front.len() && front[w] == j as usize;
            assert(whole[w] == j as usize);
            assert(whole.contains(j as usize));
        } else {
            if whole.contains(j as usize) {
                let w = choose|w: int| 0 <= w < whole.len() && whole[w] == j as usize;
                if w < front.len() {
                    assert(front[w] == j as usize);
                    assert(front.contains(j as usize));
                } else {
                    assert(terms.last());
                    assert(whole[w] == l as usize);
                }
                assert(false);
            }
        }
    } else {
        if terms[l] {
            assert(whole[front.len() as int] == l as usize);
            assert(whole.contains(l as usize));
        } else {
            assert(whole =~= front);
            if whole.contains(l as usize) {
                let w = choose|w: int| 0 <= w < whole.len() && whole[w] == l as usize;
                assert(front[w] == l as usize);
                assert(front[w] < pre.len());
                assert(false);
            }
        }
    }
}

/// `es` is a GatherEcho broadcast whose origin list is the ascending list of
/// the origins marked in `terms`.
pub open spec fn gather_bcast(es: Seq<Effect>, n: int, me: Replica, terms: Seq<bool>) -> bool {
    &&& es.len() == n
    &&& forall|q: int| 0 <= q < n ==> (#[trigger] es[q]).dest == q
    &&& forall|q: int| 0 <= q < n
        ==> ((#[trigger] es[q]).msg matches ProtMsg::GatherEcho(v, s)
            && s == me && v@ == marked_list(terms))
}

/// Build a light-ECHO broadcast.
pub fn make_echo_bcast(n: usize, root: &Hash32, origin: Replica, me: Replica) -> (es: Vec<Effect>)
    ensures
        echo_bcast(es@, n as int, root@, origin, me),
{
    let mut es: Vec<Effect> = Vec::new();
    let mut q: usize = 0;
    while q < n
        invariant
            q <= n,
            es@.len() == q,
            forall|j: int| 0 <= j < q ==> (#[trigger] es@[j]).dest == j,
            forall|j: int| 0 <= j < q
                ==> ((#[trigger] es@[j]).msg matches ProtMsg::WssEcho(r, o, s)
                    && r@ == root@ && o == origin && s == me),
        decreases n - q,
    {
        es.push(Effect { dest: q, msg: ProtMsg::WssEcho(root.dup(), origin, me) });
        q = q + 1;
    }
    es
}

/// Build a light-READY broadcast.
pub fn make_ready_bcast(n: usize, root: &Hash32, origin: Replica, me: Replica) -> (es: Vec<Effect>)
    ensures
        ready_bcast(es@, n as int, root@, origin, me),
{
    let mut es: Vec<Effect> = Vec::new();
    let mut q: usize = 0;
    while q < n
        invariant
            q <= n,
            es@.len() == q,
            forall|j: int| 0 <= j < q ==> (#[trigger] es@[j]).dest == j,
            forall|j: int| 0 <= j < q
                ==> ((#[trigger] es@[j]).msg matches ProtMsg::WssReady(r, o, s)
                    && r@ == root@ && o == origin && s == me),
        decreases n - q,
    {
        es.push(Effect { dest: q, msg: ProtMsg::WssReady(root.dup(), origin, me) });
        q = q + 1;
    }
    es
}

/// Copy a list of replica ids.
pub fn clone_replicas(v: &Vec<Replica>) -> (r: Vec<Replica>)
    ensures
        r@ == v@,
{
    let mut r: Vec<Replica> = Vec::new();
    let mut i: usize = 0;
    while i < v.len()
        invariant
            i <= v@.len(),
            r@ == v@.take(i as int),
        decreases v@.len() - i,
    {
        r.push(v[i]);
        i = i + 1;
        proof {
            assert(r@ =~= v@.take(i as int));
        }
    }
    proof {
        assert(v@.take(v@.len() as int) =~= v@);
    }
    r
}

/// Build a GatherEcho broadcast carrying the origins marked in `terms`.
pub fn make_gather_bcast(n: usize, me: Replica, terms: &Vec<bool>) -> (es: Vec<Effect>)
    ensures
        gather_bcast(es@, n as int, me, terms@),
{
    let mut list: Vec<Replica> = Vec::new();
    let mut o: usize = 0;
    while o < terms.len()
        invariant
            o <= terms@.len(),
            list@ == marked_list(terms@.take(o as int)),
        decreases terms@.len() - o,
    {
        if terms[o] {
            list.push(o);
        }
        o = o + 1;
        proof {
            let t = terms@.take(o as int);
            assert(t.drop_last() =~= terms@.take(o as int - 1));
            assert(t.last() == terms@[o as int - 1]);
            if terms@[o as int - 1] {
                assert(list@ =~= marked_list(t.drop_last()) + seq![(o - 1) as usize]);
            } else {
                assert(list@ =~= marked_list(t.drop_last()) + Seq::<usize>::empty());
            }
        }
    }
    proof {
        assert(terms@.take(terms@.len() as int) =~= terms@);
    }
    let mut es: Vec<Effect> = Vec::new();
    let mut q: usize = 0;
    while q < n
        invariant
            q <= n,
            es@.len() == q,
            list@ == marked_list(terms@),
            forall|j: int| 0 <= j < q ==> (#[trigger] es@[j]).dest == j,
            forall|j: int| 0 <= j < q
                ==> ((#[trigger] es@[j]).msg matches ProtMsg::GatherEcho(v, s)
                    && s == me && v@ == marked_list(terms@)),
        decreases n - q,
    {
        es.push(Effect { dest: q, msg: ProtMsg::GatherEcho(clone_replicas(&list), me) });
        q = q + 1;
    }
    es
}

} // verus!
