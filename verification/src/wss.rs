//! The single-secret weak-secret-sharing instance: one INIT/ECHO/READY state
//! machine per origin, run by every replica.
//!
//! ECHO and READY are "light" here: they attest only the dealer's Merkle
//! root, because each share is private to its recipient.  A replica records
//! at most one attestation per `(origin, sender)` per kind; crossing `2f+1`
//! matching ECHOs sends READY, crossing `f+1` matching READYs amplifies
//! READY, and `2f+1` matching READYs terminate the origin.  When `n-f`
//! origins have terminated, one GatherEcho is emitted for the downstream
//! layer.
use vstd::prelude::*;
use crate::hashing::{sha256_of, Hash32, hash_of};
use crate::field::{FIELD_PRIME, is_elem, be8, be8_spec};
use crate::merkle::{MerkleTree, merkle_root_spec, hview};
use crate::shamir::{poly_eval_spec, split, sample_elem};
use crate::msg::{Replica, WssMsg, ProtMsg, Effect, echo_bcast, ready_bcast, gather_bcast,
    make_echo_bcast, make_ready_bcast, make_gather_bcast};

verus! {

/// What an accepted INIT pins down for one origin.
pub struct SecretRecord {
    pub share: u64,
    pub nonce: u64,
    pub commitment: Hash32,
    pub root: Hash32,
}

/// What acceptance of an origin records: the agreed root, and the replica's
/// own share record when its INIT was received.
pub struct AcceptedSecret {
    pub root: Hash32,
    pub record: Option<SecretRecord>,
}

/// The view of one attestation row: which root each sender vouched for.
pub open spec fn row_view(row: Seq<Option<Hash32>>) -> Seq<Option<Seq<u8>>> {
    row.map_values(|o: Option<Hash32>| match o {
        Option::Some(h) => Option::Some(h@),
        Option::None => Option::None,
    })
}

/// How many senders in the row attest exactly `root`.
pub open spec fn count_matching(row: Seq<Option<Seq<u8>>>, root: Seq<u8>) -> nat
    decreases row.len(),
{
    if row.len() == 0 {
        0
    } else {
        count_matching(row.drop_last(), root)
            + if row.last() == Some(root) { 1nat } else { 0nat }
    }
}

/// How many entries are true.
pub open spec fn count_true(s: Seq<bool>) -> nat
    decreases s.len(),
{
    if s.len() == 0 {
        0
    } else {
        count_true(s.drop_last()) + if s.last() { 1nat } else { 0nat }
    }
}

/// Count the senders of a row that attest `root`.
pub fn count_row(row: &Vec<Option<Hash32>>, root: &Hash32) -> (c: usize)
    ensures
        c == count_matching(row_view(row@), root@),
        c <= row@.len(),
{
    let mut c: usize = 0;
    let mut i: usize = 0;
    while i < row.len()
        invariant
            i <= row@.len(),
            c <= i,
            c == count_matching(row_view(row@).take(i as int), root@),
        decreases row@.len() - i,
    {
        let hit = match &row[i] {
            Some(h) => h.equals(root),
            None => false,
        };
        if hit {
            c = c + 1;
        }
        i = i + 1;
        proof {
            assert(row_view(row@).take(i as int).drop_last() =~= row_view(row@).take(i as int - 1));
        }
    }
    proof {
        assert(row_view(row@).take(row@.len() as int) =~= row_view(row@));
    }
    c
}

/// Count the true flags.
pub fn count_flags(flags: &Vec<bool>) -> (c: usize)
    ensures
        c == count_true(flags@),
        c <= flags@.len(),
{
    let mut c: usize = 0;
    let mut i: usize = 0;
    while i < flags.len()
        invariant
            i <= flags@.len(),
            c <= i,
            c == count_true(flags@.take(i as int)),
        decreases flags@.len() - i,
    {
        if flags[i] {
            c = c + 1;
        }
        i = i + 1;
        proof {
            assert(flags@.take(i as int).drop_last() =~= flags@.take(i as int - 1));
        }
    }
    proof {
        assert(flags@.take(flags@.len() as int) =~= flags@);
    }
    c
}

/// A well-formed single-secret INIT for recipient `me`: the commitment binds
/// nonce plus share, and the proof carries the commitment as leaf `me`.
pub open spec fn wss_init_valid(m: &WssMsg, me: Replica) -> bool {
    &&& is_elem(m.share)
    &&& is_elem(m.nonce)
    &&& m.commitment@ == sha256_of(be8_spec((m.share + m.nonce) as u64))
    &&& m.proof.item@ == m.commitment@
    &&& m.proof.index == me
    &&& m.proof.valid_spec()
}

/// The commitments an honest dealer computes: one blinded share hash per
/// recipient.
pub open spec fn commitments_of(secret: u64, coeffs: Seq<u64>, nonces: Seq<u64>, n: int) -> Seq<Seq<u8>> {
    Seq::new(n as nat, |q: int| sha256_of(be8_spec(
        (poly_eval_spec(seq![secret] + coeffs, (q + 1) as u64) + nonces[q]) as u64,
    )))
}

/// `es` delivers to every replica `q` its own well-formed INIT for the
/// polynomial defined by `secret` and `coeffs`, blinded by `nonces`.
pub open spec fn init_bcast(es: Seq<Effect>, n: int, me: Replica, secret: u64, coeffs: Seq<u64>, nonces: Seq<u64>) -> bool {
    &&& es.len() == n
    &&& forall|q: int| 0 <= q < n ==> (#[trigger] es[q]).dest == q
    &&& forall|q: int| 0 <= q < n
        ==> ((#[trigger] es[q]).msg matches ProtMsg::WssInit(m)
            && m.origin == me
            && m.share == poly_eval_spec(seq![secret] + coeffs, (q + 1) as u64)
            && m.nonce == nonces[q]
            && m.proof.root@ == merkle_root_spec(commitments_of(secret, coeffs, nonces, n))
            && wss_init_valid(&m, q as usize))
}

/// One replica's whole single-secret WSS state, across all origins.
pub struct WssReplica {
    pub num_nodes: usize,
    pub num_faults: usize,
    pub myid: Replica,
    pub node_secrets: Vec<Option<SecretRecord>>,
    pub echos: Vec<Vec<Option<Hash32>>>,
    pub readys: Vec<Vec<Option<Hash32>>>,
    pub ready_sent: Vec<bool>,
    pub terminated: Vec<bool>,
    pub accepted: Vec<Option<AcceptedSecret>>,
    pub sent_gather_echo: bool,
}

impl WssReplica {
    pub open spec fn n(&self) -> int {
        self.num_nodes as int
    }

    pub open spec fn f(&self) -> int {
        self.num_faults as int
    }

    /// Structural well-formedness: `n = 3f + 1 <= 256`, every per-origin map
    /// has one slot per origin and sender, and an origin is terminated
    /// exactly when it has an accepted record.
    pub open spec fn wf(&self) -> bool {
        &&& self.num_faults >= 1
        &&& self.num_nodes == 3 * self.num_faults + 1
        &&& self.num_nodes <= 256
        &&& self.myid < self.num_nodes
        &&& self.node_secrets@.len() == self.n()
        &&& self.echos@.len() == self.n()
        &&& self.readys@.len() == self.n()
        &&& self.ready_sent@.len() == self.n()
        &&& self.terminated@.len() == self.n()
        &&& self.accepted@.len() == self.n()
        &&& forall|o: int| 0 <= o < self.n() ==> (#[trigger] self.echos@[o])@.len() == self.n()
        &&& forall|o: int| 0 <= o < self.n() ==> (#[trigger] self.readys@[o])@.len() == self.n()
        &&& forall|o: int| 0 <= o < self.n()
            ==> (self.terminated@[o] <==> (#[trigger] self.accepted@[o]) is Some)
    }

    /// The root attested by `s`'s ECHO for origin `o`, if any.
    pub open spec fn echo_at(&self, o: int, s: int) -> Option<Seq<u8>> {
        row_view(self.echos@[o]@)[s]
    }

    /// The root attested by `s`'s READY for origin `o`, if any.
    pub open spec fn ready_at(&self, o: int, s: int) -> Option<Seq<u8>> {
        row_view(self.readys@[o]@)[s]
    }

    /// The record stored by an accepted INIT for origin `o`, as plain values.
    pub open spec fn secret_at(&self, o: int) -> Option<(u64, u64, Seq<u8>, Seq<u8>)> {
        match self.node_secrets@[o] {
            Option::Some(r) => Option::Some((r.share, r.nonce, r.commitment@, r.root@)),
            Option::None => Option::None,
        }
    }

    /// The accepted root and record for origin `o`, as plain values.
    pub open spec fn accepted_at(&self, o: int) -> Option<(Seq<u8>, Option<(u64, u64, Seq<u8>, Seq<u8>)>)> {
        match self.accepted@[o] {
            Option::Some(a) => Option::Some((
                a.root@,
                match a.record {
                    Option::Some(r) => Option::Some((r.share, r.nonce, r.commitment@, r.root@)),
                    Option::None => Option::None,
                },
            )),
            Option::None => Option::None,
        }
    }

    /// Same `n`, `f` and id.
    pub open spec fn config_eq(&self, other: &Self) -> bool {
        &&& self.num_nodes == other.num_nodes
        &&& self.num_faults == other.num_faults
        &&& self.myid == other.myid
    }

    /// No stored INIT record differs.
    pub open spec fn secrets_eq(&self, other: &Self) -> bool {
        forall|o: int| 0 <= o < self.n() ==> self.secret_at(o) == other.secret_at(o)
    }

    /// No ECHO attestation differs.
    pub open spec fn echos_eq(&self, other: &Self) -> bool {
        forall|o: int, s: int| 0 <= o < self.n() && 0 <= s < self.n()
            ==> self.echo_at(o, s) == other.echo_at(o, s)
    }

    /// No READY attestation differs outside row `o`.
    pub open spec fn readys_eq_except(&self, other: &Self, o: int) -> bool {
        forall|o2: int, s2: int| 0 <= o2 < self.n() && 0 <= s2 < self.n() && o2 != o
            ==> self.ready_at(o2, s2) == other.ready_at(o2, s2)
    }

    /// No READY attestation differs.
    pub open spec fn readys_eq(&self, other: &Self) -> bool {
        forall|o2: int, s2: int| 0 <= o2 < self.n() && 0 <= s2 < self.n()
            ==> self.ready_at(o2, s2) == other.ready_at(o2, s2)
    }

    /// No termination or acceptance differs outside origin `o`.
    pub open spec fn term_eq_except(&self, other: &Self, o: int) -> bool {
        forall|o2: int| 0 <= o2 < self.n() && o2 != o
            ==> self.terminated@[o2] == other.terminated@[o2]
                && self.accepted_at(o2) == other.accepted_at(o2)
    }

    /// No termination or acceptance differs.
    pub open spec fn term_eq(&self, other: &Self) -> bool {
        forall|o2: int| 0 <= o2 < self.n()
            ==> self.terminated@[o2] == other.terminated@[o2]
                && self.accepted_at(o2) == other.accepted_at(o2)
    }

    /// No READY-sent flag differs.
    pub open spec fn ready_sent_eq(&self, other: &Self) -> bool {
        forall|o2: int| 0 <= o2 < self.n()
            ==> self.ready_sent@[o2] == other.ready_sent@[o2]
    }

    /// A fresh replica: empty maps for every origin.
    pub fn new(num_nodes: usize, num_faults: usize, myid: Replica) -> (r: WssReplica)
        requires
            num_faults >= 1,
            num_nodes == 3 * num_faults + 1,
            num_nodes <= 256,
            myid < num_nodes,
        ensures
            r.wf(),
            r.num_nodes == num_nodes,
            r.num_faults == num_faults,
            r.myid == myid,
            forall|o: int| 0 <= o < r.n() ==> r.secret_at(o) is None,
            forall|o: int, s: int| 0 <= o < r.n() && 0 <= s < r.n()
                ==> r.echo_at(o, s) is None && r.ready_at(o, s) is None,
            forall|o: int| 0 <= o < r.n()
                ==> !r.terminated@[o] && !r.ready_sent@[o] && r.accepted_at(o) is None,
            !r.sent_gather_echo,
    {
        let mut node_secrets: Vec<Option<SecretRecord>> = Vec::new();
        let mut echos: Vec<Vec<Option<Hash32>>> = Vec::new();
        let mut readys: Vec<Vec<Option<Hash32>>> = Vec::new();
        let mut ready_sent: Vec<bool> = Vec::new();
        let mut terminated: Vec<bool> = Vec::new();
        let mut accepted: Vec<Option<AcceptedSecret>> = Vec::new();
        let mut o: usize = 0;
        while o < num_nodes
            invariant
                o <= num_nodes,
                node_secrets@.len() == o,
                echos@.len() == o,
                readys@.len() == o,
                ready_sent@.len() == o,
                terminated@.len() == o,
                accepted@.len() == o,
                forall|j: int| 0 <= j < o ==> (#[trigger] node_secrets@[j]) is None,
                forall|j: int| 0 <= j < o ==> (#[trigger] echos@[j])@.len() == num_nodes,
                forall|j: int| 0 <= j < o ==> (#[trigger] readys@[j])@.len() == num_nodes,
                forall|j: int, s: int| 0 <= j < o && 0 <= s < num_nodes
                    ==> #[trigger] row_view(echos@[j]@)[s] is None
                        && #[trigger] row_view(readys@[j]@)[s] is None,
                forall|j: int| 0 <= j < o ==> !(#[trigger] ready_sent@[j]),
                forall|j: int| 0 <= j < o ==> !(#[trigger] terminated@[j]),
                forall|j: int| 0 <= j < o ==> (#[trigger] accepted@[j]) is None,
            decreases num_nodes - o,
        {
            let mut erow: Vec<Option<Hash32>> = Vec::new();
            let mut rrow: Vec<Option<Hash32>> = Vec::new();
            let mut s: usize = 0;
            while s < num_nodes
                invariant
                    s <= num_nodes,
                    erow@.len() == s,
                    rrow@.len() == s,
                    forall|j: int| 0 <= j < s ==> (#[trigger] erow@[j]) is None,
                    forall|j: int| 0 <= j < s ==> (#[trigger] rrow@[j]) is None,
                decreases num_nodes - s,
            {
                erow.push(None);
                rrow.push(None);
                s = s + 1;
            }
            node_secrets.push(None);
            echos.push(erow);
            readys.push(rrow);
            ready_sent.push(false);
            terminated.push(false);
            accepted.push(None);
            o = o + 1;
        }
        WssReplica {
            num_nodes,
            num_faults,
            myid,
            node_secrets,
            echos,
            readys,
            ready_sent,
            terminated,
            accepted,
            sent_gather_echo: false,
        }
    }
    /// An ECHO for `(origin, sender)` is ignored: the origin terminated, the
    /// sender already attested, or the attested root contradicts the INIT.
    pub open spec fn echo_drop(&self, mr: Seq<u8>, o: int, s: int) -> bool {
        ||| self.terminated@[o]
        ||| self.echo_at(o, s) is Some
        ||| (self.secret_at(o) is Some && self.secret_at(o).unwrap().3 != mr)
    }

    /// Handle a light ECHO `(root, origin, sender)`.
    ///
    /// Replaying a recorded ECHO, or any message for a terminated origin, is
    /// a no-op; a fresh ECHO is recorded once; crossing `2f+1` ECHOs that
    /// match the INIT root broadcasts this replica's READY exactly once.
    pub fn process_wssecho(&mut self, mr: &Hash32, sec_origin: Replica, echo_sender: Replica)
        -> (effects: Vec<Effect>)
        requires
            old(self).wf(),
            sec_origin < old(self).num_nodes,
            echo_sender < old(self).num_nodes,
        ensures
            final(self).wf(),
            final(self).config_eq(old(self)),
            final(self).secrets_eq(old(self)),
            final(self).term_eq(old(self)),
            final(self).sent_gather_echo == old(self).sent_gather_echo,
            old(self).echo_drop(mr@, sec_origin as int, echo_sender as int)
                ==> *final(self) == *old(self) && effects@.len() == 0,
            !old(self).echo_drop(mr@, sec_origin as int, echo_sender as int) ==> {
                let o = sec_origin as int;
                let s = echo_sender as int;
                let n = old(self).n();
                let f = old(self).f();
                let me = old(self).myid;
                let quorum = old(self).secret_at(o) is Some
                    && count_matching(row_view(final(self).echos@[o]@), mr@) >= 2 * f + 1
                    && !old(self).ready_sent@[o];
                &&& final(self).echo_at(o, s) == Some(mr@)
                &&& forall|o2: int, s2: int|
                    0 <= o2 < n && 0 <= s2 < n && (o2 != o || s2 != s)
                        ==> final(self).echo_at(o2, s2) == old(self).echo_at(o2, s2)
                &&& (quorum ==> {
                    &&& final(self).ready_sent@[o]
                    &&& final(self).ready_at(o, me as int) == Some(mr@)
                    &&& final(self).readys_eq_except(old(self), o)
                    &&& forall|s2: int| 0 <= s2 < n && s2 != me
                        ==> final(self).ready_at(o, s2) == old(self).ready_at(o, s2)
                    &&& ready_bcast(effects@, n, mr@, sec_origin, me)
                })
                &&& (!quorum ==> {
                    &&& final(self).readys_eq(old(self))
                    &&& final(self).ready_sent@[o] == old(self).ready_sent@[o]
                    &&& effects@.len() == 0
                })
                &&& forall|o2: int| 0 <= o2 < n && o2 != o
                    ==> final(self).ready_sent@[o2] == old(self).ready_sent@[o2]
            },
    {
        let o = sec_origin;
        let s = echo_sender;
        if self.terminated[o] {
            return Vec::new();
        }
        let already = match &self.echos[o][s] {
            Some(_) => true,
            None => false,
        };
        if already {
            return Vec::new();
        }
        let has_init = match &self.node_secrets[o] {
            Some(_) => true,
            None => false,
        };
        let root_matches = match &self.node_secrets[o] {
            Some(rec) => rec.root.equals(mr),
            None => false,
        };
        if has_init && !root_matches {
            return Vec::new();
        }
        let ghost pre_row = row_view(self.echos@[o as int]@);
        self.echos[o][s] = Some(mr.dup());
        proof {
            assert(row_view(self.echos@[o as int]@) =~= pre_row.update(s as int, Some(mr@)));
        }
        if !has_init {
            return Vec::new();
        }
        let cnt = count_row(&self.echos[o], mr);
        if cnt >= 2 * self.num_faults + 1 && !self.ready_sent[o] {
            self.ready_sent[o] = true;
            let ghost pre_ready = row_view(self.readys@[o as int]@);
            self.readys[o][self.myid] = Some(mr.dup());
            proof {
                assert(row_view(self.readys@[o as int]@)
                    =~= pre_ready.update(self.myid as int, Some(mr@)));
            }
            return make_ready_bcast(self.num_nodes, mr, o, self.myid);
        }
        Vec::new()
    }

    /// A READY for `(origin, sender)` is ignored: the origin terminated, the
    /// sender already attested, or the attested root contradicts the INIT.
    pub open spec fn ready_drop(&self, mr: Seq<u8>, o: int, s: int) -> bool {
        ||| self.terminated@[o]
        ||| self.ready_at(o, s) is Some
        ||| (self.secret_at(o) is Some && self.secret_at(o).unwrap().3 != mr)
    }

    /// Handle a light READY `(root, origin, sender)`.
    ///
    /// A fresh READY is recorded once.  Crossing `f+1` matching READYs
    /// amplifies: this replica broadcasts its own READY exactly once.
    /// Crossing `2f+1` matching READYs terminates the origin and accepts the
    /// attested root together with the stored share record, if any; when
    /// `n-f` origins have terminated, one GatherEcho broadcast is emitted.
    pub fn process_wssready(&mut self, mr: &Hash32, sec_origin: Replica, ready_sender: Replica)
        -> (effects: Vec<Effect>)
        requires
            old(self).wf(),
            sec_origin < old(self).num_nodes,
            ready_sender < old(self).num_nodes,
        ensures
            final(self).wf(),
            final(self).config_eq(old(self)),
            final(self).secrets_eq(old(self)),
            final(self).echos_eq(old(self)),
            old(self).ready_drop(mr@, sec_origin as int, ready_sender as int)
                ==> *final(self) == *old(self) && effects@.len() == 0,
            !old(self).ready_drop(mr@, sec_origin as int, ready_sender as int) ==> {
                let o = sec_origin as int;
                let s = ready_sender as int;
                let n = old(self).n();
                let f = old(self).f();
                let me = old(self).myid;
                let amplify = count_matching(
                    row_view(old(self).readys@[o]@).update(s, Some(mr@)), mr@) >= f + 1
                    && !old(self).ready_sent@[o];
                let finish = count_matching(row_view(final(self).readys@[o]@), mr@)
                    >= 2 * f + 1;
                let gather = finish && count_true(final(self).terminated@) >= n - f
                    && !old(self).sent_gather_echo;
                &&& final(self).ready_at(o, s) == Some(mr@)
                &&& final(self).readys_eq_except(old(self), o)
                &&& forall|s2: int| 0 <= s2 < n && s2 != s && s2 != me
                    ==> final(self).ready_at(o, s2) == old(self).ready_at(o, s2)
                &&& (final(self).ready_sent@[o] <==> old(self).ready_sent@[o] || amplify)
                &&& (amplify ==> final(self).ready_at(o, me as int) == Some(mr@))
                &&& (!amplify && me != s ==> final(self).ready_at(o, me as int)
                    == old(self).ready_at(o, me as int))
                &&& forall|o2: int| 0 <= o2 < n && o2 != o
                    ==> final(self).ready_sent@[o2] == old(self).ready_sent@[o2]
                &&& (final(self).terminated@[o] <==> finish)
                &&& final(self).term_eq_except(old(self), o)
                &&& (finish ==> final(self).accepted_at(o)
                    == Some((mr@, old(self).secret_at(o))))
                &&& (!finish ==> final(self).accepted_at(o) == old(self).accepted_at(o))
                &&& (final(self).sent_gather_echo <==> old(self).sent_gather_echo || gather)
                &&& (amplify && gather ==> effects@.len() == 2 * n
                    && ready_bcast(effects@.take(n), n, mr@, sec_origin, me)
                    && gather_bcast(effects@.skip(n), n, me, final(self).terminated@))
                &&& (amplify && !gather ==> ready_bcast(effects@, n, mr@, sec_origin, me))
                &&& (!amplify && gather
                    ==> gather_bcast(effects@, n, me, final(self).terminated@))
                &&& (!amplify && !gather ==> effects@.len() == 0)
            },
    {
        let o = sec_origin;
        let s = ready_sender;
        if self.terminated[o] {
            return Vec::new();
        }
        let already = match &self.readys[o][s] {
            Some(_) => true,
            None => false,
        };
        if already {
            return Vec::new();
        }
        let has_init = match &self.node_secrets[o] {
            Some(_) => true,
            None => false,
        };
        let root_matches = match &self.node_secrets[o] {
            Some(rec) => rec.root.equals(mr),
            None => false,
        };
        if has_init && !root_matches {
            return Vec::new();
        }
        let ghost pre_row = row_view(self.readys@[o as int]@);
        self.readys[o][s] = Some(mr.dup());
        proof {
            assert(row_view(self.readys@[o as int]@) =~= pre_row.update(s as int, Some(mr@)));
        }
        let mut effects: Vec<Effect> = Vec::new();
        let cnt = count_row(&self.readys[o], mr);
        let amplified = cnt >= self.num_faults + 1 && !self.ready_sent[o];
        if amplified {
            self.ready_sent[o] = true;
            let ghost mid_row = row_view(self.readys@[o as int]@);
            self.readys[o][self.myid] = Some(mr.dup());
            proof {
                assert(row_view(self.readys@[o as int]@)
                    =~= mid_row.update(self.myid as int, Some(mr@)));
            }
            let mut ready_effects = make_ready_bcast(self.num_nodes, mr, o, self.myid);
            effects.append(&mut ready_effects);
            proof {
                assert(effects@ =~= effects@.take(self.n()));
            }
        }
        let cnt2 = count_row(&self.readys[o], mr);
        if cnt2 >= 2 * self.num_faults + 1 {
            self.terminated[o] = true;
            let record: Option<SecretRecord> = match &self.node_secrets[o] {
                Some(rec) => Some(SecretRecord {
                    share: rec.share,
                    nonce: rec.nonce,
                    commitment: rec.commitment.dup(),
                    root: rec.root.dup(),
                }),
                None => None,
            };
            self.accepted[o] = Some(AcceptedSecret { root: mr.dup(), record });
            let term_count = count_flags(&self.terminated);
            if term_count >= self.num_nodes - self.num_faults && !self.sent_gather_echo {
                self.sent_gather_echo = true;
                let ghost pre_len = effects@.len();
                let mut gather_effects = make_gather_bcast(self.num_nodes, self.myid, &self.terminated);
                effects.append(&mut gather_effects);
                proof {
                    if pre_len > 0 {
                        assert(effects@.take(self.n()) =~= effects@.subrange(0, self.n()));
                    }
                }
            }
        }
        effects
    }

    /// Handle the dealer's INIT addressed to this replica.
    ///
    /// A malformed INIT (wrong commitment, wrong leaf, broken proof or wrong
    /// index), a replay, or an INIT for a terminated origin changes nothing.
    /// A valid first INIT records the share, attests this replica's own ECHO
    /// and READY, and broadcasts a light ECHO of the dealer's root.
    pub fn process_wss_init(&mut self, wss_init: &WssMsg) -> (effects: Vec<Effect>)
        requires
            old(self).wf(),
            wss_init.origin < old(self).num_nodes,
        ensures
            final(self).wf(),
            final(self).config_eq(old(self)),
            final(self).term_eq(old(self)),
            final(self).readys_eq_except(old(self), wss_init.origin as int),
            final(self).ready_sent_eq(old(self)),
            final(self).sent_gather_echo == old(self).sent_gather_echo,
            (old(self).terminated@[wss_init.origin as int]
                || old(self).secret_at(wss_init.origin as int) is Some
                || !wss_init_valid(wss_init, old(self).myid))
                ==> *final(self) == *old(self) && effects@.len() == 0,
            (!old(self).terminated@[wss_init.origin as int]
                && old(self).secret_at(wss_init.origin as int) is None
                && wss_init_valid(wss_init, old(self).myid)) ==> {
                let o = wss_init.origin as int;
                let n = old(self).n();
                let me = old(self).myid;
                let root = wss_init.proof.root@;
                &&& final(self).secret_at(o)
                    == Some((wss_init.share, wss_init.nonce, wss_init.commitment@, root))
                &&& forall|o2: int| 0 <= o2 < n && o2 != o
                    ==> final(self).secret_at(o2) == old(self).secret_at(o2)
                &&& final(self).echo_at(o, me as int) == Some(root)
                &&& final(self).ready_at(o, me as int) == Some(root)
                &&& forall|o2: int, s2: int|
                    0 <= o2 < n && 0 <= s2 < n && (o2 != o || s2 != me)
                        ==> final(self).echo_at(o2, s2) == old(self).echo_at(o2, s2)
                &&& forall|s2: int| 0 <= s2 < n && s2 != me
                    ==> final(self).ready_at(o, s2) == old(self).ready_at(o, s2)
                &&& echo_bcast(effects@, n, root, wss_init.origin, me)
            },
    {
        let o = wss_init.origin;
        if self.terminated[o] {
            return Vec::new();
        }
        let has_init = match &self.node_secrets[o] {
            Some(_) => true,
            None => false,
        };
        if has_init {
            return Vec::new();
        }
        // recompute the commitment and check the proof before any state moves
        if !(wss_init.share < FIELD_PRIME && wss_init.nonce < FIELD_PRIME) {
            return Vec::new();
        }
        let sum = wss_init.share + wss_init.nonce;
        let recomputed = hash_of(&be8(sum));
        let valid = recomputed.equals(&wss_init.commitment)
            && wss_init.proof.item.equals(&wss_init.commitment)
            && wss_init.proof.index == self.myid
            && wss_init.proof.validate();
        if !valid {
            return Vec::new();
        }
        let root = wss_init.proof.root.dup();
        self.node_secrets[o] = Some(SecretRecord {
            share: wss_init.share,
            nonce: wss_init.nonce,
            commitment: wss_init.commitment.dup(),
            root: wss_init.proof.root.dup(),
        });
        let ghost pre_echo = row_view(self.echos@[o as int]@);
        self.echos[o][self.myid] = Some(root.dup());
        proof {
            assert(row_view(self.echos@[o as int]@)
                =~= pre_echo.update(self.myid as int, Some(root@)));
        }
        let ghost pre_ready = row_view(self.readys@[o as int]@);
        self.readys[o][self.myid] = Some(root.dup());
        proof {
            assert(row_view(self.readys@[o as int]@)
                =~= pre_ready.update(self.myid as int, Some(root@)));
        }
        make_echo_bcast(self.num_nodes, &root, o, self.myid)
    }

    /// Deal one secret: split it with the given blinding coefficients,
    /// commit each share under a fresh nonce, build the Merkle tree over the
    /// commitments, and address to every replica its own INIT.  The local
    /// state does not move; the INIT addressed to this replica comes back
    /// through the driver like any other message.
    pub fn start_wss_with(&self, secret: u64, coeffs: &Vec<u64>, nonces: &Vec<u64>)
        -> (effects: Vec<Effect>)
        requires
            self.wf(),
            is_elem(secret),
            forall|j: int| 0 <= j < coeffs@.len() ==> is_elem(#[trigger] coeffs@[j]),
            forall|j: int| 0 <= j < nonces@.len() ==> is_elem(#[trigger] nonces@[j]),
            coeffs@.len() == self.f(),
            nonces@.len() == self.n(),
        ensures
            init_bcast(effects@, self.n(), self.myid, secret, coeffs@, nonces@),
    {
        let n = self.num_nodes;
        let shares = split(secret, coeffs, n);
        let mut items: Vec<Hash32> = Vec::new();
        let mut q: usize = 0;
        while q < n
            invariant
                q <= n,
                shares@.len() == n,
                nonces@.len() == n,
                forall|j: int| 0 <= j < n
                    ==> #[trigger] shares@[j] == poly_eval_spec(seq![secret] + coeffs@, (j + 1) as u64),
                forall|j: int| 0 <= j < n ==> is_elem(#[trigger] shares@[j]),
                forall|j: int| 0 <= j < nonces@.len() ==> is_elem(#[trigger] nonces@[j]),
                items@.len() == q,
                forall|j: int| 0 <= j < q
                    ==> (#[trigger] items@[j])@
                        == commitments_of(secret, coeffs@, nonces@, n as int)[j],
            decreases n - q,
        {
            let sum = shares[q] + nonces[q];
            items.push(hash_of(&be8(sum)));
            q = q + 1;
        }
        let ghost items_view = items@;
        let tree = MerkleTree::build(items);
        proof {
            assert(hview(items_view) =~= commitments_of(secret, coeffs@, nonces@, n as int));
        }
        let mut effects: Vec<Effect> = Vec::new();
        let mut r: usize = 0;
        while r < n
            invariant
                r <= n,
                n == self.num_nodes,
                tree.wf(),
                tree.items@ == items_view,
                items_view.len() == n,
                shares@.len() == n,
                nonces@.len() == n,
                hview(items_view) == commitments_of(secret, coeffs@, nonces@, n as int),
                forall|j: int| 0 <= j < n
                    ==> #[trigger] shares@[j] == poly_eval_spec(seq![secret] + coeffs@, (j + 1) as u64),
                forall|j: int| 0 <= j < n ==> is_elem(#[trigger] shares@[j]),
                forall|j: int| 0 <= j < nonces@.len() ==> is_elem(#[trigger] nonces@[j]),
                effects@.len() == r,
                forall|j: int| 0 <= j < r ==> (#[trigger] effects@[j]).dest == j,
                forall|j: int| 0 <= j < r
                    ==> ((#[trigger] effects@[j]).msg matches ProtMsg::WssInit(m)
                        && m.origin == self.myid
                        && m.share == poly_eval_spec(seq![secret] + coeffs@, (j + 1) as u64)
                        && m.nonce == nonces@[j]
                        && m.proof.root@
                            == merkle_root_spec(commitments_of(secret, coeffs@, nonces@, n as int))
                        && wss_init_valid(&m, j as usize)),
            decreases n - r,
        {
            let proof_r = tree.gen_proof(r);
            let commitment = proof_r.item.dup();
            let msg = WssMsg {
                origin: self.myid,
                share: shares[r],
                nonce: nonces[r],
                commitment,
                proof: proof_r,
            };
            effects.push(Effect { dest: r, msg: ProtMsg::WssInit(msg) });
            r = r + 1;
        }
        effects
    }

    /// Deal one secret with fresh randomness: sample the secret, the `f`
    /// blinding coefficients and the `n` nonces, then disperse as
    /// `start_wss_with`.  Whatever the random draws were, every replica gets
    /// a well-formed INIT under one common root, carrying shares of one
    /// degree-`f` polynomial.
    pub fn start_wss(&self) -> (effects: Vec<Effect>)
        requires
            self.wf(),
        ensures
            exists|secret: u64, coeffs: Seq<u64>, nonces: Seq<u64>|
                is_elem(secret) && coeffs.len() == self.f() && nonces.len() == self.n()
                    && #[trigger] init_bcast(effects@, self.n(), self.myid, secret, coeffs, nonces),
    {
        let secret = sample_elem();
        let mut coeffs: Vec<u64> = Vec::new();
        let mut j: usize = 0;
        while j < self.num_faults
            invariant
                j <= self.num_faults,
                coeffs@.len() == j,
                forall|w: int| 0 <= w < j ==> is_elem(#[trigger] coeffs@[w]),
            decreases self.num_faults - j,
        {
            coeffs.push(sample_elem());
            j = j + 1;
        }
        let mut nonces: Vec<u64> = Vec::new();
        let mut w: usize = 0;
        while w < self.num_nodes
            invariant
                w <= self.num_nodes,
                nonces@.len() == w,
                forall|v: int| 0 <= v < w ==> is_elem(#[trigger] nonces@[v]),
            decreases self.num_nodes - w,
        {
            nonces.push(sample_elem());
            w = w + 1;
        }
        let effects = self.start_wss_with(secret, &coeffs, &nonces);
        proof {
            assert(init_bcast(effects@, self.n(), self.myid, secret, coeffs@, nonces@));
        }
        effects
    }

}

} // verus!
