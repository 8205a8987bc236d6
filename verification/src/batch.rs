//! The batched WSS instance: the dealer concatenates per-replica commitment
//! bytes into one payload, erasure-codes it, Merkle-trees the shard hashes,
//! and drives a full CT-RBC with per-recipient shard and proof.  ECHO and
//! READY here carry the sender's own shard, so a replica that missed INIT
//! can rebuild its shard from `f+1` attested READYs.
use vstd::prelude::*;
use crate::hashing::{sha256_of, Hash32, hash_of, clone_bytes};
use crate::merkle::{MerkleTree, MerkleProof, merkle_root_spec, hview};
use crate::erasure::{ErasureError, get_shards, reconstruct_and_verify, reconstruct_and_return,
    split_data, rs_codeword, bview, oview, agrees_with, concat_all, present_uniform,
    present_count, entry_shards, root_of_shards};
use crate::msg::{Replica, CtrbcMsg, ProtMsg, Effect, gather_bcast, make_gather_bcast};
use crate::wss::{count_true, count_flags};

verus! {

/// What an accepted batched INIT pins down for one origin.
pub struct BatchRecord {
    pub master_root: Hash32,
    pub shard: Vec<u8>,
    pub proof: MerkleProof,
}

/// A terminated batched instance: the agreed master root and the rebuilt
/// commitment payload, truncated to its nominal length.
pub struct BatchAccepted {
    pub master_root: Hash32,
    pub payload: Vec<u8>,
}

/// The view of one shard-attestation row: each sender's shard and the root
/// its proof chains to.
pub open spec fn brow_view(row: Seq<Option<(Vec<u8>, MerkleProof)>>) -> Seq<Option<(Seq<u8>, Seq<u8>)>> {
    row.map_values(|o: Option<(Vec<u8>, MerkleProof)>| match o {
        Option::Some(e) => Option::Some((e.0@, e.1.root@)),
        Option::None => Option::None,
    })
}

/// How many senders' entries chain to exactly `root`.
pub open spec fn count_root(row: Seq<Option<(Seq<u8>, Seq<u8>)>>, root: Seq<u8>) -> nat
    decreases row.len(),
{
    if row.len() == 0 {
        0
    } else {
        count_root(row.drop_last(), root)
            + if row.last() matches Some(e) && e.1 == root { 1nat } else { 0nat }
    }
}

/// The shard of each entry chaining to `root`, as handed to the erasure
/// decoder.
pub open spec fn filtered_shards(brow: Seq<Option<(Seq<u8>, Seq<u8>)>>, root: Seq<u8>) -> Seq<Option<Seq<u8>>> {
    brow.map_values(|e: Option<(Seq<u8>, Seq<u8>)>| match e {
        Option::Some(p) => if p.1 == root { Option::Some(p.0) } else { Option::None },
        Option::None => Option::None,
    })
}

/// A shard message is coherent: its proof carries the hash of its shard as
/// leaf and chains to the message's master root.
pub open spec fn ctrbc_valid(c: &CtrbcMsg, master_root: Seq<u8>) -> bool {
    &&& c.proof.item@ == sha256_of(c.shard@)
    &&& c.proof.valid_spec()
    &&& c.proof.root@ == master_root
}

/// Check a shard message against a master root.
pub fn check_ctrbc(c: &CtrbcMsg, master_root: &Hash32) -> (r: bool)
    ensures
        r == ctrbc_valid(c, master_root@),
{
    let item_ok = {
        let h = hash_of(&c.shard);
        c.proof.item.equals(&h)
    };
    item_ok && c.proof.validate() && c.proof.root.equals(master_root)
}

/// Count the senders of a row whose entry chains to `root`.
pub fn count_root_row(row: &Vec<Option<(Vec<u8>, MerkleProof)>>, root: &Hash32) -> (c: usize)
    ensures
        c == count_root(brow_view(row@), root@),
        c <= row@.len(),
{
    let mut c: usize = 0;
    let mut i: usize = 0;
    while i < row.len()
        invariant
            i <= row@.len(),
            c <= i,
            c == count_root(brow_view(row@).take(i as int), root@),
        decreases row@.len() - i,
    {
        let hit = match &row[i] {
            Some(e) => e.1.root.equals(root),
            None => false,
        };
        if hit {
            c = c + 1;
        }
        i = i + 1;
        proof {
            assert(brow_view(row@).take(i as int).drop_last()
                =~= brow_view(row@).take(i as int - 1));
        }
    }
    proof {
        assert(brow_view(row@).take(row@.len() as int) =~= brow_view(row@));
    }
    c
}

/// Copy a shard message.
pub fn dup_ctrbc(c: &CtrbcMsg) -> (r: CtrbcMsg)
    ensures
        r.shard@ == c.shard@,
        r.origin == c.origin,
        r.round == c.round,
        r.proof.item@ == c.proof.item@,
        r.proof.index == c.proof.index,
        r.proof.root@ == c.proof.root@,
        r.proof.valid_spec() == c.proof.valid_spec(),
{
    CtrbcMsg {
        shard: clone_bytes(&c.shard),
        proof: c.proof.dup(),
        round: c.round,
        origin: c.origin,
    }
}

/// `es` is a batched-ECHO broadcast of one coherent shard message.
pub open spec fn batch_echo_bcast(es: Seq<Effect>, n: int, shard: Seq<u8>, root: Seq<u8>, origin: Replica, me: Replica) -> bool {
    &&& es.len() == n
    &&& forall|q: int| 0 <= q < n ==> (#[trigger] es[q]).dest == q
    &&& forall|q: int| 0 <= q < n
        ==> ((#[trigger] es[q]).msg matches ProtMsg::BatchWssEcho(c, mroot, s)
            && c.shard@ == shard && c.origin == origin && mroot@ == root && s == me
            && ctrbc_valid(&c, root))
}

/// `es` is a batched-READY broadcast of one coherent shard message.
pub open spec fn batch_ready_bcast(es: Seq<Effect>, n: int, root: Seq<u8>, origin: Replica, me: Replica) -> bool {
    &&& es.len() == n
    &&& forall|q: int| 0 <= q < n ==> (#[trigger] es[q]).dest == q
    &&& forall|q: int| 0 <= q < n
        ==> ((#[trigger] es[q]).msg matches ProtMsg::BatchWssReady(c, mroot, s)
            && c.origin == origin && mroot@ == root && s == me
            && c.proof.index == me
            && ctrbc_valid(&c, root))
}

/// Build a batched-ECHO broadcast.
pub fn make_batch_echo_bcast(n: usize, c: &CtrbcMsg, master_root: &Hash32, me: Replica)
    -> (es: Vec<Effect>)
    requires
        ctrbc_valid(c, master_root@),
    ensures
        batch_echo_bcast(es@, n as int, c.shard@, master_root@, c.origin, me),
{
    let mut es: Vec<Effect> = Vec::new();
    let mut q: usize = 0;
    while q < n
        invariant
            q <= n,
            es@.len() == q,
            ctrbc_valid(c, master_root@),
            forall|j: int| 0 <= j < q ==> (#[trigger] es@[j]).dest == j,
            forall|j: int| 0 <= j < q
                ==> ((#[trigger] es@[j]).msg matches ProtMsg::BatchWssEcho(c2, mroot, s)
                    && c2.shard@ == c.shard@ && c2.origin == c.origin
                    && mroot@ == master_root@ && s == me
                    && ctrbc_valid(&c2, master_root@)),
        decreases n - q,
    {
        es.push(Effect {
            dest: q,
            msg: ProtMsg::BatchWssEcho(dup_ctrbc(c), master_root.dup(), me),
        });
        q = q + 1;
    }
    es
}

/// Build a batched-READY broadcast.
pub fn make_batch_ready_bcast(n: usize, c: &CtrbcMsg, master_root: &Hash32, me: Replica)
    -> (es: Vec<Effect>)
    requires
        ctrbc_valid(c, master_root@),
        c.proof.index == me,
    ensures
        batch_ready_bcast(es@, n as int, master_root@, c.origin, me),
        forall|q: int| 0 <= q < n
            ==> ((#[trigger] es@[q]).msg matches ProtMsg::BatchWssReady(c2, mroot, s)
                && c2.shard@ == c.shard@),
{
    let mut es: Vec<Effect> = Vec::new();
    let mut q: usize = 0;
    while q < n
        invariant
            q <= n,
            es@.len() == q,
            ctrbc_valid(c, master_root@),
            c.proof.index == me,
            forall|j: int| 0 <= j < q ==> (#[trigger] es@[j]).dest == j,
            forall|j: int| 0 <= j < q
                ==> ((#[trigger] es@[j]).msg matches ProtMsg::BatchWssReady(c2, mroot, s)
                    && c2.shard@ == c.shard@ && c2.origin == c.origin
                    && mroot@ == master_root@ && s == me
                    && c2.proof.index == me
                    && ctrbc_valid(&c2, master_root@)),
        decreases n - q,
    {
        es.push(Effect {
            dest: q,
            msg: ProtMsg::BatchWssReady(dup_ctrbc(c), master_root.dup(), me),
        });
        q = q + 1;
    }
    es
}

/// `es` is a share-revelation broadcast of one coherent shard message.
pub open spec fn batch_reconstruct_bcast(es: Seq<Effect>, n: int, root: Seq<u8>, origin: Replica, me: Replica) -> bool {
    &&& es.len() == n
    &&& forall|q: int| 0 <= q < n ==> (#[trigger] es[q]).dest == q
    &&& forall|q: int| 0 <= q < n
        ==> ((#[trigger] es[q]).msg matches ProtMsg::BatchWssReconstruct(c, mroot, s)
            && c.origin == origin && mroot@ == root && s == me
            && c.proof.index == me
            && ctrbc_valid(&c, root))
}

/// Build a share-revelation broadcast.
pub fn make_batch_reconstruct_bcast(n: usize, c: &CtrbcMsg, master_root: &Hash32, me: Replica)
    -> (es: Vec<Effect>)
    requires
        ctrbc_valid(c, master_root@),
        c.proof.index == me,
    ensures
        batch_reconstruct_bcast(es@, n as int, master_root@, c.origin, me),
{
    let mut es: Vec<Effect> = Vec::new();
    let mut q: usize = 0;
    while q < n
        invariant
            q <= n,
            es@.len() == q,
            ctrbc_valid(c, master_root@),
            c.proof.index == me,
            forall|j: int| 0 <= j < q ==> (#[trigger] es@[j]).dest == j,
            forall|j: int| 0 <= j < q
                ==> ((#[trigger] es@[j]).msg matches ProtMsg::BatchWssReconstruct(c2, mroot, s)
                    && c2.origin == c.origin
                    && mroot@ == master_root@ && s == me
                    && c2.proof.index == me
                    && ctrbc_valid(&c2, master_root@)),
        decreases n - q,
    {
        es.push(Effect {
            dest: q,
            msg: ProtMsg::BatchWssReconstruct(dup_ctrbc(c), master_root.dup(), me),
        });
        q = q + 1;
    }
    es
}

/// Filtering a row to one root keeps exactly the entries counted for it.
pub proof fn lemma_filtered_count(brow: Seq<Option<(Seq<u8>, Seq<u8>)>>, root: Seq<u8>)
    ensures
        present_count(filtered_shards(brow, root)) == count_root(brow, root),
    decreases brow.len(),
{
    if brow.len() > 0 {
        lemma_filtered_count(brow.drop_last(), root);
        assert(filtered_shards(brow, root).drop_last()
            =~= filtered_shards(brow.drop_last(), root));
    }
}

/// A row filtered to one root hands the decoder exactly the shards of the
/// entries chaining to that root.
proof fn lemma_entries_match(
    entries: Seq<Option<(Vec<u8>, MerkleProof)>>,
    brow: Seq<Option<(Seq<u8>, Seq<u8>)>>,
    root: Seq<u8>,
)
    requires
        entries.len() == brow.len(),
        forall|q: int| 0 <= q < brow.len()
            ==> (#[trigger] brow_view(entries)[q]) == (
                if brow[q] matches Some(e) && e.1 == root { brow[q] } else { None }),
    ensures
        entry_shards(entries) == filtered_shards(brow, root),
{
    assert forall|q: int| 0 <= q < brow.len()
        implies #[trigger] entry_shards(entries)[q] == filtered_shards(brow, root)[q] by {
        if entries[q] is Some {
            assert(brow_view(entries)[q] is Some);
        } else {
            assert(brow_view(entries)[q] is None);
        }
    }
    assert(entry_shards(entries) =~= filtered_shards(brow, root));
}

/// One replica's whole batched WSS state, across all origins.
pub struct BatchReplica {
    pub num_nodes: usize,
    pub num_faults: usize,
    pub myid: Replica,
    pub batch_size: usize,
    pub node_secrets: Vec<Option<BatchRecord>>,
    pub echos: Vec<Vec<Option<(Vec<u8>, MerkleProof)>>>,
    pub readys: Vec<Vec<Option<(Vec<u8>, MerkleProof)>>>,
    pub ready_sent: Vec<bool>,
    pub terminated: Vec<bool>,
    pub failed: Vec<bool>,
    pub accepted: Vec<Option<BatchAccepted>>,
    pub sent_gather_echo: bool,
}

impl BatchReplica {
    pub open spec fn n(&self) -> int {
        self.num_nodes as int
    }

    pub open spec fn f(&self) -> int {
        self.num_faults as int
    }

    /// Structural well-formedness, as in the single-secret instance, plus
    /// the batch payload length staying within machine bounds.
    pub open spec fn wf(&self) -> bool {
        &&& self.num_faults >= 1
        &&& self.num_nodes == 3 * self.num_faults + 1
        &&& self.num_nodes <= 256
        &&& self.myid < self.num_nodes
        &&& self.batch_size >= 1
        &&& 32 * self.num_nodes * self.batch_size < usize::MAX
        &&& self.node_secrets@.len() == self.n()
        &&& self.echos@.len() == self.n()
        &&& self.readys@.len() == self.n()
        &&& self.ready_sent@.len() == self.n()
        &&& self.terminated@.len() == self.n()
        &&& self.failed@.len() == self.n()
        &&& self.accepted@.len() == self.n()
        &&& forall|o: int| 0 <= o < self.n() ==> (#[trigger] self.echos@[o])@.len() == self.n()
        &&& forall|o: int| 0 <= o < self.n() ==> (#[trigger] self.readys@[o])@.len() == self.n()
        &&& forall|o: int| 0 <= o < self.n()
            ==> (self.terminated@[o] <==> (#[trigger] self.accepted@[o]) is Some)
        &&& forall|o: int| 0 <= o < self.n() && (#[trigger] self.node_secrets@[o]) is Some
            ==> {
                let r = self.node_secrets@[o].unwrap();
                &&& r.proof.root@ == r.master_root@
                &&& r.proof.item@ == sha256_of(r.shard@)
                &&& r.proof.valid_spec()
                &&& r.proof.index == self.myid
            }
        // proof–shard coherence: every stored attestation carries a proof
        // whose leaf is the hash of its shard and whose path reaches its root
        &&& forall|o: int, s: int|
            0 <= o < self.n() && 0 <= s < self.n()
                && (#[trigger] self.echos@[o]@[s]) is Some
            ==> {
                let e = self.echos@[o]@[s].unwrap();
                e.1.item@ == sha256_of(e.0@) && e.1.valid_spec()
            }
        &&& forall|o: int, s: int|
            0 <= o < self.n() && 0 <= s < self.n()
                && (#[trigger] self.readys@[o]@[s]) is Some
            ==> {
                let e = self.readys@[o]@[s].unwrap();
                e.1.item@ == sha256_of(e.0@) && e.1.valid_spec()
            }
    }

    /// The `(shard, root)` attested by `s`'s ECHO for origin `o`, if any.
    pub open spec fn echo_at(&self, o: int, s: int) -> Option<(Seq<u8>, Seq<u8>)> {
        brow_view(self.echos@[o]@)[s]
    }

    /// The `(shard, root)` attested by `s`'s READY for origin `o`, if any.
    pub open spec fn ready_at(&self, o: int, s: int) -> Option<(Seq<u8>, Seq<u8>)> {
        brow_view(self.readys@[o]@)[s]
    }

    /// The master root recorded by an accepted INIT for origin `o`, if any.
    pub open spec fn root_at(&self, o: int) -> Option<Seq<u8>> {
        match self.node_secrets@[o] {
            Option::Some(r) => Option::Some(r.master_root@),
            Option::None => Option::None,
        }
    }

    /// The accepted master root and payload for origin `o`, as plain values.
    pub open spec fn accepted_at(&self, o: int) -> Option<(Seq<u8>, Seq<u8>)> {
        match self.accepted@[o] {
            Option::Some(a) => Option::Some((a.master_root@, a.payload@)),
            Option::None => Option::None,
        }
    }

    /// Same `n`, `f`, id and batch size.
    pub open spec fn config_eq(&self, other: &Self) -> bool {
        &&& self.num_nodes == other.num_nodes
        &&& self.num_faults == other.num_faults
        &&& self.myid == other.myid
        &&& self.batch_size == other.batch_size
    }

    /// A fresh replica: empty maps for every origin.
    pub fn new(num_nodes: usize, num_faults: usize, myid: Replica, batch_size: usize)
        -> (r: BatchReplica)
        requires
            num_faults >= 1,
            num_nodes == 3 * num_faults + 1,
            num_nodes <= 256,
            myid < num_nodes,
            batch_size >= 1,
            32 * num_nodes * batch_size < usize::MAX,
        ensures
            r.wf(),
            r.num_nodes == num_nodes,
            r.num_faults == num_faults,
            r.myid == myid,
            r.batch_size == batch_size,
            forall|o: int| 0 <= o < r.n() ==> r.root_at(o) is None,
            forall|o: int, s: int| 0 <= o < r.n() && 0 <= s < r.n()
                ==> r.echo_at(o, s) is None && r.ready_at(o, s) is None,
            forall|o: int| 0 <= o < r.n()
                ==> !r.terminated@[o] && !r.ready_sent@[o] && !r.failed@[o]
                    && r.accepted_at(o) is None,
            !r.sent_gather_echo,
    {
        let mut node_secrets: Vec<Option<BatchRecord>> = Vec::new();
        let mut echos: Vec<Vec<Option<(Vec<u8>, MerkleProof)>>> = Vec::new();
        let mut readys: Vec<Vec<Option<(Vec<u8>, MerkleProof)>>> = Vec::new();
        let mut ready_sent: Vec<bool> = Vec::new();
        let mut terminated: Vec<bool> = Vec::new();
        let mut failed: Vec<bool> = Vec::new();
        let mut accepted: Vec<Option<BatchAccepted>> = Vec::new();
        let mut o: usize = 0;
        while o < num_nodes
            invariant
                o <= num_nodes,
                node_secrets@.len() == o,
                echos@.len() == o,
                readys@.len() == o,
                ready_sent@.len() == o,
                terminated@.len() == o,
                failed@.len() == o,
                accepted@.len() == o,
                forall|j: int| 0 <= j < o ==> (#[trigger] node_secrets@[j]) is None,
                forall|j: int| 0 <= j < o ==> (#[trigger] echos@[j])@.len() == num_nodes,
                forall|j: int| 0 <= j < o ==> (#[trigger] readys@[j])@.len() == num_nodes,
                forall|j: int, s: int| 0 <= j < o && 0 <= s < num_nodes
                    ==> #[trigger] brow_view(echos@[j]@)[s] is None
                        && #[trigger] brow_view(readys@[j]@)[s] is None,
                forall|j: int, s: int| 0 <= j < o && 0 <= s < num_nodes
                    ==> (#[trigger] echos@[j]@[s]) is None,
                forall|j: int, s: int| 0 <= j < o && 0 <= s < num_nodes
                    ==> (#[trigger] readys@[j]@[s]) is None,
                forall|j: int| 0 <= j < o ==> !(#[trigger] ready_sent@[j]),
                forall|j: int| 0 <= j < o ==> !(#[trigger] terminated@[j]),
                forall|j: int| 0 <= j < o ==> !(#[trigger] failed@[j]),
                forall|j: int| 0 <= j < o ==> (#[trigger] accepted@[j]) is None,
            decreases num_nodes - o,
        {
            let mut erow: Vec<Option<(Vec<u8>, MerkleProof)>> = Vec::new();
            let mut rrow: Vec<Option<(Vec<u8>, MerkleProof)>> = Vec::new();
            let mut s: usize = 0;
            while s < num_nodes
                invariant
                    s <= num_nodes,
                    erow@.len() == s,
                    rrow@.len() == s,
                    forall|j: int| 0 <= j < s ==> (#[trigger] erow@[j]) is None,
                    forall|j: int| 0 <= j < s ==> (#[trigger] rrow@[j]) is None,
                decreases num_nodes - s,
            {
                erow.push(None);
                rrow.push(None);
                s = s + 1;
            }
            node_secrets.push(None);
            echos.push(erow);
            readys.push(rrow);
            ready_sent.push(false);
            terminated.push(false);
            failed.push(false);
            accepted.push(None);
            o = o + 1;
        }
        let r = BatchReplica {
            num_nodes,
            num_faults,
            myid,
            batch_size,
            node_secrets,
            echos,
            readys,
            ready_sent,
            terminated,
            failed,
            accepted,
            sent_gather_echo: false,
        };
        proof {
            assert forall|j: int, s: int|
                0 <= j < r.n() && 0 <= s < r.n()
                    implies (#[trigger] r.echos@[j]@[s]) is None by {
                assert(r.echos@[j]@[s] == echos@[j]@[s]);
            }
            assert forall|j: int, s: int|
                0 <= j < r.n() && 0 <= s < r.n()
                    implies (#[trigger] r.readys@[j]@[s]) is None by {
                assert(r.readys@[j]@[s] == readys@[j]@[s]);
            }
        }
        r
    }

    /// Disperse a commitment payload: erasure-code it, build the Merkle tree
    /// over the shard hashes, and address to each replica its shard with its
    /// proof under the master root.
    pub fn start_batch_wss(&self, payload: Vec<u8>) -> (effects: Vec<Effect>)
        requires
            self.wf(),
            payload@.len() >= 1,
            payload@.len() < usize::MAX - 300,
        ensures
            effects@.len() == self.n(),
            forall|q: int| 0 <= q < self.n() ==> (#[trigger] effects@[q]).dest == q,
            forall|q: int| 0 <= q < self.n()
                ==> ((#[trigger] effects@[q]).msg matches ProtMsg::BatchWssInit(c, mroot)
                    && c.origin == self.myid
                    && ctrbc_valid(&c, mroot@)
                    && c.proof.index == q
                    && c.shard@ == rs_codeword(self.f() as nat, split_data(payload@, self.f() as nat))[q]
                    && mroot@ == merkle_root_spec(
                        rs_codeword(self.f() as nat, split_data(payload@, self.f() as nat))
                            .map_values(|s: Seq<u8>| sha256_of(s)))),
    {
        let ghost pview = payload@;
        let shards = get_shards(payload, self.num_faults);
        let ghost cw = rs_codeword(self.f() as nat, split_data(pview, self.f() as nat));
        proof {
            assert(bview(shards@) =~= cw);
        }
        let mut items: Vec<Hash32> = Vec::new();
        let mut q: usize = 0;
        while q < shards.len()
            invariant
                q <= shards@.len(),
                shards@.len() == self.n(),
                bview(shards@) == cw,
                items@.len() == q,
                forall|j: int| 0 <= j < q
                    ==> (#[trigger] items@[j])@ == sha256_of(cw[j]),
            decreases shards@.len() - q,
        {
            items.push(hash_of(&shards[q]));
            q = q + 1;
        }
        let ghost items_view = items@;
        let tree = MerkleTree::build(items);
        proof {
            assert(hview(items_view) =~= cw.map_values(|s: Seq<u8>| sha256_of(s)));
        }
        let mut effects: Vec<Effect> = Vec::new();
        let mut r: usize = 0;
        while r < self.num_nodes
            invariant
                r <= self.num_nodes,
                tree.wf(),
                tree.items@ == items_view,
                items_view.len() == self.n(),
                shards@.len() == self.n(),
                bview(shards@) == cw,
                hview(items_view) == cw.map_values(|s: Seq<u8>| sha256_of(s)),
                forall|j: int| 0 <= j < self.n()
                    ==> (#[trigger] items_view[j])@ == sha256_of(cw[j]),
                effects@.len() == r,
                forall|j: int| 0 <= j < r ==> (#[trigger] effects@[j]).dest == j,
                forall|j: int| 0 <= j < r
                    ==> ((#[trigger] effects@[j]).msg matches ProtMsg::BatchWssInit(c, mroot)
                        && c.origin == self.myid
                        && ctrbc_valid(&c, mroot@)
                        && c.proof.index == j
                        && c.shard@ == cw[j]
                        && mroot@ == merkle_root_spec(cw.map_values(|s: Seq<u8>| sha256_of(s)))),
            decreases self.num_nodes - r,
        {
            let proof_r = tree.gen_proof(r);
            let root_r = proof_r.root.dup();
            let c = CtrbcMsg {
                shard: clone_bytes(&shards[r]),
                proof: proof_r,
                round: 0,
                origin: self.myid,
            };
            effects.push(Effect { dest: r, msg: ProtMsg::BatchWssInit(c, root_r) });
            r = r + 1;
        }
        effects
    }

    /// Handle a batched INIT addressed to this replica: verify the shard
    /// against the master root and this replica's leaf index, record it, and
    /// broadcast a batched ECHO carrying this replica's own shard.
    pub fn process_batchwssinit(&mut self, ctrbc: &CtrbcMsg, master_root: &Hash32)
        -> (effects: Vec<Effect>)
        requires
            old(self).wf(),
            ctrbc.origin < old(self).num_nodes,
        ensures
            final(self).wf(),
            final(self).config_eq(old(self)),
            (old(self).terminated@[ctrbc.origin as int]
                || old(self).failed@[ctrbc.origin as int]
                || old(self).root_at(ctrbc.origin as int) is Some
                || !(ctrbc_valid(ctrbc, master_root@) && ctrbc.proof.index == old(self).myid))
                ==> *final(self) == *old(self) && effects@.len() == 0,
            (!old(self).terminated@[ctrbc.origin as int]
                && !old(self).failed@[ctrbc.origin as int]
                && old(self).root_at(ctrbc.origin as int) is None
                && ctrbc_valid(ctrbc, master_root@)
                && ctrbc.proof.index == old(self).myid) ==> {
                let o = ctrbc.origin as int;
                let n = old(self).n();
                let me = old(self).myid;
                &&& final(self).root_at(o) == Some(master_root@)
                &&& forall|o2: int| 0 <= o2 < n && o2 != o
                    ==> final(self).root_at(o2) == old(self).root_at(o2)
                &&& final(self).echo_at(o, me as int) == Some((ctrbc.shard@, master_root@))
                &&& forall|o2: int, s2: int|
                    0 <= o2 < n && 0 <= s2 < n && (o2 != o || s2 != me)
                        ==> final(self).echo_at(o2, s2) == old(self).echo_at(o2, s2)
                &&& forall|o2: int, s2: int| 0 <= o2 < n && 0 <= s2 < n
                    ==> final(self).ready_at(o2, s2) == old(self).ready_at(o2, s2)
                &&& forall|o2: int| 0 <= o2 < n
                    ==> final(self).terminated@[o2] == old(self).terminated@[o2]
                        && final(self).failed@[o2] == old(self).failed@[o2]
                        && final(self).ready_sent@[o2] == old(self).ready_sent@[o2]
                        && final(self).accepted_at(o2) == old(self).accepted_at(o2)
                &&& final(self).sent_gather_echo == old(self).sent_gather_echo
                &&& batch_echo_bcast(effects@, n, ctrbc.shard@, master_root@, ctrbc.origin, me)
            },
    {
        let o = ctrbc.origin;
        if self.terminated[o] || self.failed[o] {
            return Vec::new();
        }
        let has_init = match &self.node_secrets[o] {
            Some(_) => true,
            None => false,
        };
        if has_init {
            return Vec::new();
        }
        if !(check_ctrbc(ctrbc, master_root) && ctrbc.proof.index == self.myid) {
            return Vec::new();
        }
        self.node_secrets[o] = Some(BatchRecord {
            master_root: master_root.dup(),
            shard: clone_bytes(&ctrbc.shard),
            proof: ctrbc.proof.dup(),
        });
        let ghost pre_row = brow_view(self.echos@[o as int]@);
        self.echos[o][self.myid] = Some((clone_bytes(&ctrbc.shard), ctrbc.proof.dup()));
        proof {
            assert(brow_view(self.echos@[o as int]@)
                =~= pre_row.update(self.myid as int, Some((ctrbc.shard@, master_root@))));
        }
        make_batch_echo_bcast(self.num_nodes, ctrbc, master_root, self.myid)
    }

    /// A batched ECHO or READY is ignored when its origin is settled, its
    /// sender already attested in that row, the shard message is incoherent,
    /// or its root contradicts the recorded INIT.
    pub open spec fn batch_drop(&self, row_entry: Option<(Seq<u8>, Seq<u8>)>, c: &CtrbcMsg, mroot: Seq<u8>, o: int) -> bool {
        ||| self.terminated@[o]
        ||| self.failed@[o]
        ||| row_entry is Some
        ||| !ctrbc_valid(c, mroot)
        ||| (self.root_at(o) is Some && self.root_at(o) != Some(mroot))
    }

    /// Handle a batched ECHO: record the sender's shard, and on `2f+1`
    /// attestations of the recorded root broadcast this replica's own shard
    /// as READY, exactly once.
    pub fn process_batch_wssecho(&mut self, ctrbc: &CtrbcMsg, master_root: &Hash32, echo_sender: Replica)
        -> (effects: Vec<Effect>)
        requires
            old(self).wf(),
            ctrbc.origin < old(self).num_nodes,
            echo_sender < old(self).num_nodes,
        ensures
            final(self).wf(),
            final(self).config_eq(old(self)),
            old(self).batch_drop(old(self).echo_at(ctrbc.origin as int, echo_sender as int),
                ctrbc, master_root@, ctrbc.origin as int)
                ==> *final(self) == *old(self) && effects@.len() == 0,
            !old(self).batch_drop(old(self).echo_at(ctrbc.origin as int, echo_sender as int),
                ctrbc, master_root@, ctrbc.origin as int) ==> {
                let o = ctrbc.origin as int;
                let s = echo_sender as int;
                let n = old(self).n();
                let f = old(self).f();
                let me = old(self).myid;
                let quorum = old(self).root_at(o) is Some
                    && count_root(brow_view(final(self).echos@[o]@), master_root@) >= 2 * f + 1
                    && !old(self).ready_sent@[o];
                &&& final(self).echo_at(o, s) == Some((ctrbc.shard@, master_root@))
                &&& forall|o2: int, s2: int|
                    0 <= o2 < n && 0 <= s2 < n && (o2 != o || s2 != s)
                        ==> final(self).echo_at(o2, s2) == old(self).echo_at(o2, s2)
                &&& forall|o2: int| 0 <= o2 < n
                    ==> final(self).root_at(o2) == old(self).root_at(o2)
                        && final(self).terminated@[o2] == old(self).terminated@[o2]
                        && final(self).failed@[o2] == old(self).failed@[o2]
                        && final(self).accepted_at(o2) == old(self).accepted_at(o2)
                &&& final(self).sent_gather_echo == old(self).sent_gather_echo
                &&& (quorum ==> {
                    &&& final(self).ready_sent@[o]
                    &&& batch_ready_bcast(effects@, n, master_root@, ctrbc.origin, me)
                    &&& forall|o2: int, s2: int| 0 <= o2 < n && 0 <= s2 < n
                        ==> final(self).ready_at(o2, s2) == old(self).ready_at(o2, s2)
                })
                &&& (!quorum ==> {
                    &&& effects@.len() == 0
                    &&& forall|o2: int, s2: int| 0 <= o2 < n && 0 <= s2 < n
                        ==> final(self).ready_at(o2, s2) == old(self).ready_at(o2, s2)
                    &&& forall|o2: int| 0 <= o2 < n
                        ==> final(self).ready_sent@[o2] == old(self).ready_sent@[o2]
                })
                &&& forall|o2: int| 0 <= o2 < n && o2 != o
                    ==> final(self).ready_sent@[o2] == old(self).ready_sent@[o2]
            },
    {
        let o = ctrbc.origin;
        let s = echo_sender;
        if self.terminated[o] || self.failed[o] {
            return Vec::new();
        }
        let already = match &self.echos[o][s] {
            Some(_) => true,
            None => false,
        };
        if already {
            return Vec::new();
        }
        if !check_ctrbc(ctrbc, master_root) {
            return Vec::new();
        }
        let root_conflict = match &self.node_secrets[o] {
            Some(rec) => !rec.master_root.equals(master_root),
            None => false,
        };
        if root_conflict {
            return Vec::new();
        }
        let ghost pre_row = brow_view(self.echos@[o as int]@);
        self.echos[o][s] = Some((clone_bytes(&ctrbc.shard), ctrbc.proof.dup()));
        proof {
            assert(brow_view(self.echos@[o as int]@)
                =~= pre_row.update(s as int, Some((ctrbc.shard@, master_root@))));
        }
        let has_init = match &self.node_secrets[o] {
            Some(_) => true,
            None => false,
        };
        if !has_init {
            return Vec::new();
        }
        let cnt = count_root_row(&self.echos[o], master_root);
        if cnt >= 2 * self.num_faults + 1 && !self.ready_sent[o] {
            self.ready_sent[o] = true;
            let own = match &self.node_secrets[o] {
                Some(rec) => CtrbcMsg {
                    shard: clone_bytes(&rec.shard),
                    proof: rec.proof.dup(),
                    round: 0,
                    origin: o,
                },
                // the INIT was just seen to be present, so this arm is
                // unreachable; the verifier knows it
                None => CtrbcMsg {
                    shard: Vec::new(),
                    proof: ctrbc.proof.dup(),
                    round: 0,
                    origin: o,
                },
            };
            return make_batch_ready_bcast(self.num_nodes, &own, master_root, self.myid);
        }
        Vec::new()
    }

    /// Collect the row's entries that chain to `root`, ready for the
    /// erasure decoder.
    fn filter_row(row: &Vec<Option<(Vec<u8>, MerkleProof)>>, root: &Hash32)
        -> (r: Vec<Option<(Vec<u8>, MerkleProof)>>)
        ensures
            r@.len() == row@.len(),
            forall|q: int| 0 <= q < row@.len()
                ==> (#[trigger] brow_view(r@)[q]) == (
                    if brow_view(row@)[q] matches Some(e) && e.1 == root@ {
                        brow_view(row@)[q]
                    } else {
                        None
                    }),
    {
        let mut r: Vec<Option<(Vec<u8>, MerkleProof)>> = Vec::new();
        let mut i: usize = 0;
        while i < row.len()
            invariant
                i <= row@.len(),
                r@.len() == i,
                forall|q: int| 0 <= q < i
                    ==> (#[trigger] brow_view(r@)[q]) == (
                        if brow_view(row@)[q] matches Some(e) && e.1 == root@ {
                            brow_view(row@)[q]
                        } else {
                            None
                        }),
            decreases row@.len() - i,
        {
            let ghost r0 = r@;
            let keep = match &row[i] {
                Some(e) => e.1.root.equals(root),
                None => false,
            };
            if keep {
                match &row[i] {
                    Some(e) => r.push(Some((clone_bytes(&e.0), e.1.dup()))),
                    None => r.push(None),
                }
            } else {
                r.push(None);
            }
            proof {
                assert forall|q: int| 0 <= q < i + 1
                    implies (#[trigger] brow_view(r@)[q]) == (
                        if brow_view(row@)[q] matches Some(e) && e.1 == root@ {
                            brow_view(row@)[q]
                        } else {
                            None
                        }) by {
                    if q < i {
                        assert(r@[q] == r0[q]);
                        assert(brow_view(r@)[q] == brow_view(r0)[q]);
                    } else {
                        assert(r@[q] == r@.last());
                    }
                }
            }
            i = i + 1;
        }
        r
    }

    /// Truncate a payload to the batch's nominal commitment length.
    fn truncate_payload(&self, payload: Vec<u8>) -> (r: Vec<u8>)
        requires
            self.wf(),
        ensures
            r@.len() <= 32 * self.num_nodes * self.batch_size,
            r@ == payload@.take(vstd::math::min(payload@.len() as int,
                32 * self.n() * (self.batch_size as int))),
    {
        let cap = 32 * self.num_nodes * self.batch_size;
        let mut r: Vec<u8> = Vec::new();
        let mut i: usize = 0;
        while i < payload.len() && i < cap
            invariant
                i <= payload@.len(),
                i <= cap,
                cap == 32 * self.n() * (self.batch_size as int),
                r@ == payload@.take(i as int),
            decreases payload@.len() - i,
        {
            r.push(payload[i]);
            i = i + 1;
            proof {
                assert(r@ =~= payload@.take(i as int));
            }
        }
        r
    }

    /// Handle a batched READY.
    ///
    /// A fresh coherent READY is recorded once.  On `f+1` attestations of
    /// one root this replica broadcasts its own shard as READY, exactly once
    /// — rebuilding that shard from the attested entries when its INIT never
    /// arrived; a rebuild whose shards re-hash to a different root marks the
    /// origin permanently failed.  On `2f+1` attestations the payload is
    /// rebuilt; when its shards re-hash to the attested root the origin
    /// terminates, the payload is accepted and this replica reveals its own
    /// shard in a BatchWssReconstruct broadcast, otherwise the origin is
    /// marked permanently failed.  When `n-f` origins have terminated, one
    /// GatherEcho broadcast is emitted.
    #[verifier::rlimit(60)]
    pub fn process_batchwssready(&mut self, ctrbc: &CtrbcMsg, master_root: &Hash32, ready_sender: Replica)
        -> (effects: Vec<Effect>)
        requires
            old(self).wf(),
            ctrbc.origin < old(self).num_nodes,
            ready_sender < old(self).num_nodes,
        ensures
            final(self).wf(),
            final(self).config_eq(old(self)),
            old(self).batch_drop(old(self).ready_at(ctrbc.origin as int, ready_sender as int),
                ctrbc, master_root@, ctrbc.origin as int)
                ==> *final(self) == *old(self) && effects@.len() == 0,
            !old(self).batch_drop(old(self).ready_at(ctrbc.origin as int, ready_sender as int),
                ctrbc, master_root@, ctrbc.origin as int) ==> {
                let o = ctrbc.origin as int;
                let s = ready_sender as int;
                let n = old(self).n();
                let f = old(self).f();
                let me = old(self).myid;
                let frow = brow_view(final(self).readys@[o]@);
                let fcount = count_root(frow, master_root@);
                let rflip = final(self).ready_sent@[o] && !old(self).ready_sent@[o];
                let tflip = final(self).terminated@[o];
                let gflip = final(self).sent_gather_echo && !old(self).sent_gather_echo;
                &&& final(self).ready_at(o, s) == Some((ctrbc.shard@, master_root@))
                &&& forall|o2: int, s2: int|
                    0 <= o2 < n && 0 <= s2 < n && (o2 != o || s2 != s)
                        ==> final(self).ready_at(o2, s2) == old(self).ready_at(o2, s2)
                &&& forall|o2: int, s2: int| 0 <= o2 < n && 0 <= s2 < n
                    ==> final(self).echo_at(o2, s2) == old(self).echo_at(o2, s2)
                &&& forall|o2: int| 0 <= o2 < n
                    ==> final(self).root_at(o2) == old(self).root_at(o2)
                &&& forall|o2: int| 0 <= o2 < n && o2 != o
                    ==> final(self).terminated@[o2] == old(self).terminated@[o2]
                        && final(self).failed@[o2] == old(self).failed@[o2]
                        && final(self).ready_sent@[o2] == old(self).ready_sent@[o2]
                        && final(self).accepted_at(o2) == old(self).accepted_at(o2)
                // our own READY goes out only across the f+1 threshold, once
                &&& (old(self).ready_sent@[o] ==> final(self).ready_sent@[o])
                &&& (rflip ==> fcount >= f + 1)
                // ... and with the INIT recorded under this root it is owed
                &&& (old(self).root_at(o) == Some(master_root@) && !old(self).ready_sent@[o]
                        && fcount >= f + 1
                    ==> final(self).ready_sent@[o])
                // termination happens only at a 2f+1 quorum, accepting the
                // attested root
                &&& (tflip ==> fcount >= 2 * f + 1)
                &&& (tflip
                    ==> (final(self).accepted_at(o) matches Some(a) && a.0 == master_root@))
                // the accepted payload is pinned by the codeword the quorum's
                // shards agree with: the rebuilt data shards, concatenated
                // and trimmed to the batch's nominal length
                &&& (tflip
                    ==> (final(self).accepted_at(o) matches Some(a)
                        && forall|d: Seq<Seq<u8>>|
                            #[trigger] agrees_with(
                                filtered_shards(frow, master_root@),
                                rs_codeword(f as nat, d))
                            && d.len() == f + 1
                            ==> a.1 == concat_all(d).take(vstd::math::min(
                                concat_all(d).len() as int,
                                32 * n * (old(self).batch_size as int)))))
                // a decodable 2f+1 quorum whose codeword rebuilds the
                // attested root is owed termination ...
                &&& ((fcount >= 2 * f + 1
                        && present_uniform(filtered_shards(frow, master_root@))
                        && (exists|d: Seq<Seq<u8>>|
                            #[trigger] agrees_with(filtered_shards(frow, master_root@),
                                rs_codeword(f as nat, d))
                            && root_of_shards(rs_codeword(f as nat, d)) == master_root@))
                    ==> final(self).terminated@[o])
                // ... and one whose codeword rebuilds another root is owed
                // permanent failure
                &&& ((fcount >= 2 * f + 1
                        && present_uniform(filtered_shards(frow, master_root@))
                        && (exists|d: Seq<Seq<u8>>|
                            #[trigger] agrees_with(filtered_shards(frow, master_root@),
                                rs_codeword(f as nat, d))
                            && root_of_shards(rs_codeword(f as nat, d)) != master_root@))
                    ==> final(self).failed@[o])
                // failure comes only from a rebuild attempt
                &&& (final(self).failed@[o] ==> fcount >= f + 1)
                &&& (!final(self).terminated@[o] && !final(self).failed@[o]
                    ==> final(self).accepted_at(o) == old(self).accepted_at(o))
                // one GatherEcho, only on reaching n-f terminations
                &&& (old(self).sent_gather_echo ==> final(self).sent_gather_echo)
                &&& (gflip ==> count_true(final(self).terminated@) >= n - f)
                // effect layout: [own READY?] ++ [share revelation on
                // termination] ++ [GatherEcho?]
                &&& effects@.len() == (if rflip { n } else { 0 }) + (if tflip { n } else { 0 })
                    + (if gflip { n } else { 0 })
                &&& (rflip
                    ==> batch_ready_bcast(effects@.take(n), n, master_root@, ctrbc.origin, me))
                &&& (tflip ==> batch_reconstruct_bcast(
                    effects@.subrange(
                        if rflip { n } else { 0 },
                        (if rflip { n } else { 0 }) + n,
                    ),
                    n, master_root@, ctrbc.origin, me))
                &&& (gflip ==> gather_bcast(effects@.skip(effects@.len() - n), n, me,
                    final(self).terminated@))
            },
    {
        let o = ctrbc.origin;
        let s = ready_sender;
        if self.terminated[o] || self.failed[o] {
            return Vec::new();
        }
        let already = match &self.readys[o][s] {
            Some(_) => true,
            None => false,
        };
        if already {
            return Vec::new();
        }
        if !check_ctrbc(ctrbc, master_root) {
            return Vec::new();
        }
        let root_conflict = match &self.node_secrets[o] {
            Some(rec) => !rec.master_root.equals(master_root),
            None => false,
        };
        if root_conflict {
            return Vec::new();
        }
        let ghost pre_row = brow_view(self.readys@[o as int]@);
        self.readys[o][s] = Some((clone_bytes(&ctrbc.shard), ctrbc.proof.dup()));
        proof {
            assert(brow_view(self.readys@[o as int]@)
                =~= pre_row.update(s as int, Some((ctrbc.shard@, master_root@))));
        }
        let mut effects: Vec<Effect> = Vec::new();
        let ghost mut ready_seg: Seq<Effect> = Seq::empty();
        let ghost mut rec_seg: Seq<Effect> = Seq::empty();
        let ghost mut gather_seg: Seq<Effect> = Seq::empty();
        let cnt = count_root_row(&self.readys[o], master_root);
        if cnt >= self.num_faults + 1 && !self.ready_sent[o] {
            // amplification: broadcast our own shard, rebuilding it when the
            // INIT never arrived
            let has_init = match &self.node_secrets[o] {
                Some(_) => true,
                None => false,
            };
            if has_init {
                let own = match &self.node_secrets[o] {
                    Some(rec) => CtrbcMsg {
                        shard: clone_bytes(&rec.shard),
                        proof: rec.proof.dup(),
                        round: 0,
                        origin: o,
                    },
                    // unreachable: the INIT is present on this branch
                    None => CtrbcMsg {
                        shard: Vec::new(),
                        proof: ctrbc.proof.dup(),
                        round: 0,
                        origin: o,
                    },
                };
                self.ready_sent[o] = true;
                let mut ready_effects =
                    make_batch_ready_bcast(self.num_nodes, &own, master_root, self.myid);
                proof {
                    ready_seg = ready_effects@;
                }
                effects.append(&mut ready_effects);
            } else {
                let entries = Self::filter_row(&self.readys[o], master_root);
                proof {
                    lemma_entries_match(entries@,
                        brow_view(self.readys@[o as int]@), master_root@);
                    lemma_filtered_count(brow_view(self.readys@[o as int]@), master_root@);
                }
                let rebuilt = reconstruct_and_verify(
                    &entries, self.num_nodes, self.num_faults, self.myid, master_root);
                match rebuilt {
                    Ok(own_pair) => {
                        let own = CtrbcMsg {
                            shard: own_pair.0,
                            proof: own_pair.1,
                            round: 0,
                            origin: o,
                        };
                        self.ready_sent[o] = true;
                        let mut ready_effects =
                            make_batch_ready_bcast(self.num_nodes, &own, master_root, self.myid);
                        proof {
                            ready_seg = ready_effects@;
                        }
                        effects.append(&mut ready_effects);
                    },
                    Err(e) => {
                        if matches!(e, ErasureError::ReconstructionRootMismatch) {
                            // the attested shards rebuild a different root:
                            // the instance can never terminate
                            self.failed[o] = true;
                        }
                        // an erasure shortage: wait for more READYs
                    },
                }
            }
        }
        proof {
            assert(effects@ =~= ready_seg + rec_seg + gather_seg);
        }
        let cnt2 = count_root_row(&self.readys[o], master_root);
        if cnt2 >= 2 * self.num_faults + 1 && !self.failed[o] {
            // termination: rebuild the payload and hold it to the root
            let entries = Self::filter_row(&self.readys[o], master_root);
            proof {
                lemma_entries_match(entries@,
                    brow_view(self.readys@[o as int]@), master_root@);
                lemma_filtered_count(brow_view(self.readys@[o as int]@), master_root@);
            }
            let rebuilt = reconstruct_and_verify(
                &entries, self.num_nodes, self.num_faults, self.myid, master_root);
            match rebuilt {
                Ok(own_pair) => {
                    let mut shards_only: Vec<Option<Vec<u8>>> = Vec::new();
                    let mut w: usize = 0;
                    while w < entries.len()
                        invariant
                            w <= entries@.len(),
                            shards_only@.len() == w,
                            forall|q: int| 0 <= q < w
                                ==> #[trigger] oview(shards_only@)[q] == (
                                    match brow_view(entries@)[q] {
                                        Option::Some(p) => Option::Some(p.0),
                                        Option::None => Option::<Seq<u8>>::None,
                                    }),
                        decreases entries@.len() - w,
                    {
                        let ghost so0 = shards_only@;
                        match &entries[w] {
                            Some(e) => shards_only.push(Some(clone_bytes(&e.0))),
                            None => shards_only.push(None),
                        }
                        proof {
                            assert forall|q: int| 0 <= q < w + 1
                                implies #[trigger] oview(shards_only@)[q] == (
                                    match brow_view(entries@)[q] {
                                        Option::Some(p) => Option::Some(p.0),
                                        Option::None => Option::<Seq<u8>>::None,
                                    }) by {
                                if q < w {
                                    assert(shards_only@[q] == so0[q]);
                                    assert(oview(shards_only@)[q] == oview(so0)[q]);
                                } else {
                                    assert(shards_only@[q] == shards_only@.last());
                                }
                            }
                        }
                        w = w + 1;
                    }
                    proof {
                        assert(oview(shards_only@) =~= filtered_shards(
                            brow_view(self.readys@[o as int]@), master_root@));
                    }
                    let payload_res = reconstruct_and_return(
                        &shards_only, self.num_nodes, self.num_faults);
                    match payload_res {
                        Ok(payload) => {
                            let trimmed = self.truncate_payload(payload);
                            self.terminated[o] = true;
                            self.accepted[o] = Some(BatchAccepted {
                                master_root: master_root.dup(),
                                payload: trimmed,
                            });
                            // share revelation: our rebuilt shard, fresh proof
                            let own = CtrbcMsg {
                                shard: own_pair.0,
                                proof: own_pair.1,
                                round: 0,
                                origin: o,
                            };
                            let mut rec_effects = make_batch_reconstruct_bcast(
                                self.num_nodes, &own, master_root, self.myid);
                            proof {
                                rec_seg = rec_effects@;
                            }
                            effects.append(&mut rec_effects);
                            proof {
                                assert(effects@ =~= ready_seg + rec_seg + gather_seg);
                            }
                            let term_count = count_flags(&self.terminated);
                            if term_count >= self.num_nodes - self.num_faults
                                && !self.sent_gather_echo {
                                self.sent_gather_echo = true;
                                let mut gather_effects = make_gather_bcast(
                                    self.num_nodes, self.myid, &self.terminated);
                                proof {
                                    gather_seg = gather_effects@;
                                }
                                effects.append(&mut gather_effects);
                                proof {
                                    assert(effects@ =~= ready_seg + rec_seg + gather_seg);
                                }
                            }
                        },
                        Err(_) => {
                            // unreachable: the decoder already succeeded on
                            // these entries
                        },
                    }
                },
                Err(e) => {
                    if matches!(e, ErasureError::ReconstructionRootMismatch) {
                        // the quorum's shards rebuild a different root: the
                        // instance can never terminate
                        self.failed[o] = true;
                    }
                },
            }
        }
        proof {
            let nn = self.n();
            assert(effects@ =~= ready_seg + rec_seg + gather_seg);
            if ready_seg.len() > 0 {
                assert(effects@.take(nn) =~= ready_seg);
            }
            if rec_seg.len() > 0 {
                assert(effects@.subrange(ready_seg.len() as int, ready_seg.len() + nn)
                    =~= rec_seg);
            }
            if gather_seg.len() > 0 {
                assert(effects@.skip(effects@.len() - nn) =~= gather_seg);
            }
        }
        effects
    }

}

} // verus!
