//! Systematic Reed–Solomon dispersal over GF(2^8): `f+1` data shards plus
//! `2f` parity shards, so any `f+1` of the `3f+1` shards recover the payload.
//!
//! The encoder and decoder of the `reed-solomon-erasure` crate sit behind
//! trusted wrappers; the parity they compute is named `rs_parity`, a function
//! of the fault bound and the data shards alone, so that round trips can be
//! stated exactly.
use vstd::prelude::*;
use vstd::arithmetic::div_mod::lemma_fundamental_div_mod;
use crate::hashing::{sha256_of, Hash32, hash_of, push_bytes, clone_bytes};
use crate::merkle::{MerkleTree, MerkleProof, merkle_root_spec, hview};

verus! {

/// Why dispersal or reconstruction failed.
#[derive(Clone, Copy, PartialEq, Eq, Structural, Debug)]
pub enum ErasureError {
    /// Fewer than `f+1` shards present, or the present shards disagree in size.
    ErasureShortage,
    /// The reconstructed shards do not rebuild the root they were attested by.
    ReconstructionRootMismatch,
}

/// The views of a sequence of byte vectors.
pub open spec fn bview(s: Seq<Vec<u8>>) -> Seq<Seq<u8>> {
    s.map_values(|v: Vec<u8>| v@)
}

/// The views of a sequence of optional byte vectors.
pub open spec fn oview(s: Seq<Option<Vec<u8>>>) -> Seq<Option<Seq<u8>>> {
    s.map_values(|o: Option<Vec<u8>>| match o {
        Option::Some(v) => Option::Some(v@),
        Option::None => Option::None,
    })
}

/// How many entries are present.
pub open spec fn present_count(s: Seq<Option<Seq<u8>>>) -> nat
    decreases s.len(),
{
    if s.len() == 0 {
        0
    } else {
        present_count(s.drop_last()) + if s.last() is Some { 1nat } else { 0nat }
    }
}

/// Every present entry has the same positive length.
pub open spec fn present_uniform(s: Seq<Option<Seq<u8>>>) -> bool {
    &&& forall|i: int| 0 <= i < s.len() && s[i] is Some ==> (#[trigger] s[i]).unwrap().len() > 0
    &&& forall|i: int, j: int|
        0 <= i < s.len() && 0 <= j < s.len() && s[i] is Some && s[j] is Some
            ==> (#[trigger] s[i]).unwrap().len() == (#[trigger] s[j]).unwrap().len()
}

/// The present entries agree with the codeword at their positions.
pub open spec fn agrees_with(opts: Seq<Option<Seq<u8>>>, cw: Seq<Seq<u8>>) -> bool {
    &&& opts.len() == cw.len()
    &&& forall|i: int| 0 <= i < opts.len() && opts[i] is Some
        ==> (#[trigger] opts[i]).unwrap() == cw[i]
}

/// What the Reed–Solomon encoder appends: the `2f` parity shards computed
/// from the fault bound and the `f+1` data shards alone.
pub uninterp spec fn rs_parity(faults: nat, data: Seq<Seq<u8>>) -> Seq<Seq<u8>>;

/// The full codeword: the data shards followed by their parity.
pub open spec fn rs_codeword(faults: nat, data: Seq<Seq<u8>>) -> Seq<Seq<u8>> {
    data + rs_parity(faults, data)
}

/// Relies on `reed_solomon_erasure::galois_8::ReedSolomon::encode`
/// (systematic): the `f+1` data shards are left unchanged, the `2f` parity
/// slots are overwritten with a deterministic function of the data shards,
/// and every shard keeps its length.
#[verifier::external_body]
fn rs_encode(faults: usize, shards: &mut Vec<Vec<u8>>)
    requires
        1 <= faults,
        3 * faults + 1 <= 256,
        old(shards)@.len() == 3 * faults + 1,
        forall|i: int| 0 <= i < old(shards)@.len()
            ==> (#[trigger] old(shards)@[i])@.len() == old(shards)@[0]@.len(),
        old(shards)@[0]@.len() >= 1,
    ensures
        final(shards)@.len() == old(shards)@.len(),
        forall|i: int| 0 <= i < faults + 1
            ==> (#[trigger] final(shards)@[i])@ == old(shards)@[i]@,
        bview(final(shards)@).skip(faults + 1)
            == rs_parity(faults as nat, bview(old(shards)@).take(faults + 1)),
        forall|i: int| 0 <= i < final(shards)@.len()
            ==> (#[trigger] final(shards)@[i])@.len() == old(shards)@[0]@.len(),
{
    let r = reed_solomon_erasure::galois_8::ReedSolomon::new(faults + 1, 2 * faults).unwrap();
    r.encode(&mut shards[..]).unwrap();
}

/// Relies on `ReedSolomon::reconstruct`: it succeeds exactly when the present
/// shards share one positive length and at least `f+1` of the `3f+1` are
/// present; on success it fills every missing slot and leaves the present
/// ones untouched; on failure nothing is touched.  When the present shards
/// agree with a codeword at their positions, the filled vector is that
/// codeword (any `f+1` shards determine it).
#[verifier::external_body]
fn rs_reconstruct(faults: usize, shards: &mut Vec<Option<Vec<u8>>>) -> (r: Result<(), ErasureError>)
    requires
        1 <= faults,
        3 * faults + 1 <= 256,
        old(shards)@.len() == 3 * faults + 1,
    ensures
        final(shards)@.len() == old(shards)@.len(),
        r is Ok <==> (present_uniform(oview(old(shards)@))
            && present_count(oview(old(shards)@)) >= faults + 1),
        r is Err ==> oview(final(shards)@) == oview(old(shards)@),
        r is Ok ==> forall|i: int| 0 <= i < final(shards)@.len()
            ==> (#[trigger] final(shards)@[i]) is Some,
        r is Ok ==> forall|i: int|
            0 <= i < old(shards)@.len() && (#[trigger] old(shards)@[i]) is Some
                ==> oview(final(shards)@)[i] == oview(old(shards)@)[i],
        r is Ok ==> forall|d: Seq<Seq<u8>>|
            #[trigger] agrees_with(oview(old(shards)@), rs_codeword(faults as nat, d))
                ==> forall|i: int| 0 <= i < final(shards)@.len()
                    ==> oview(final(shards)@)[i] == Some(rs_codeword(faults as nat, d)[i]),
{
    let r = reed_solomon_erasure::galois_8::ReedSolomon::new(faults + 1, 2 * faults).unwrap();
    match r.reconstruct(shards.as_mut_slice()) {
        Ok(()) => Ok(()),
        Err(_) => Err(ErasureError::ErasureShortage),
    }
}

/// Relies on `ReedSolomon::reconstruct_data`: as `reconstruct`, but only the
/// missing data shards (the first `f+1`) are filled.
#[verifier::external_body]
fn rs_reconstruct_data(faults: usize, shards: &mut Vec<Option<Vec<u8>>>) -> (r: Result<(), ErasureError>)
    requires
        1 <= faults,
        3 * faults + 1 <= 256,
        old(shards)@.len() == 3 * faults + 1,
    ensures
        final(shards)@.len() == old(shards)@.len(),
        r is Ok <==> (present_uniform(oview(old(shards)@))
            && present_count(oview(old(shards)@)) >= faults + 1),
        r is Err ==> oview(final(shards)@) == oview(old(shards)@),
        r is Ok ==> forall|i: int| 0 <= i < faults + 1
            ==> (#[trigger] final(shards)@[i]) is Some,
        r is Ok ==> forall|i: int|
            0 <= i < old(shards)@.len() && (#[trigger] old(shards)@[i]) is Some
                ==> oview(final(shards)@)[i] == oview(old(shards)@)[i],
        r is Ok ==> forall|d: Seq<Seq<u8>>|
            #[trigger] agrees_with(oview(old(shards)@), rs_codeword(faults as nat, d))
                ==> forall|i: int| 0 <= i < faults + 1
                    ==> oview(final(shards)@)[i] == Some(rs_codeword(faults as nat, d)[i]),
{
    let r = reed_solomon_erasure::galois_8::ReedSolomon::new(faults + 1, 2 * faults).unwrap();
    match r.reconstruct_data(shards.as_mut_slice()) {
        Ok(()) => Ok(()),
        Err(_) => Err(ErasureError::ErasureShortage),
    }
}

/// Length of each shard of a payload of `dlen` bytes under `faults` faults:
/// the payload is zero-padded to a multiple of `f+1`, so each of the `f+1`
/// data shards carries the ceiling of `dlen / (f+1)` bytes.
pub open spec fn shard_size(dlen: nat, faults: nat) -> nat {
    (dlen + faults) / (faults + 1)
}

/// The `f+1` zero-padded data shards of a payload.
pub open spec fn split_data(data: Seq<u8>, faults: nat) -> Seq<Seq<u8>> {
    let size = shard_size(data.len(), faults) as int;
    Seq::new(
        (faults + 1) as nat,
        |b: int| Seq::new(
            shard_size(data.len(), faults),
            |x: int| if b * size + x < data.len() { data[b * size + x] } else { 0u8 },
        ),
    )
}

/// Erasure-code a payload into `3f+1` shards: the `f+1` zero-padded data
/// shards followed by their `2f` parity shards.
pub fn get_shards(data: Vec<u8>, faults: usize) -> (r: Vec<Vec<u8>>)
    requires
        1 <= faults,
        3 * faults + 1 <= 256,
        data@.len() >= 1,
        data@.len() < usize::MAX - 300,
    ensures
        r@.len() == 3 * faults + 1,
        forall|b: int| 0 <= b < faults + 1
            ==> (#[trigger] r@[b])@ == split_data(data@, faults as nat)[b],
        bview(r@).skip(faults + 1) == rs_parity(faults as nat, split_data(data@, faults as nat)),
        forall|i: int| 0 <= i < r@.len()
            ==> (#[trigger] r@[i])@.len() == shard_size(data@.len(), faults as nat),
{
    let size = (data.len() + faults) / (faults + 1);
    proof {
        lemma_fundamental_div_mod(data@.len() as int + faults, faults as int + 1);
        assert((faults as int + 1) * (size as int) <= data@.len() + faults
            && size as int >= 1)
            by (nonlinear_arith)
            requires faults >= 1, data@.len() >= 1,
                (faults as int + 1) * ((data@.len() as int + faults) / (faults as int + 1))
                    + (data@.len() as int + faults) % (faults as int + 1)
                    == data@.len() as int + faults,
                (data@.len() as int + faults) % (faults as int + 1) >= 0,
                (data@.len() as int + faults) % (faults as int + 1) < faults as int + 1,
                size as int == (data@.len() as int + faults) / (faults as int + 1);
    }
    let mut shards: Vec<Vec<u8>> = Vec::new();
    let mut b: usize = 0;
    while b < faults + 1
        invariant
            b <= faults + 1,
            size == shard_size(data@.len(), faults as nat),
            size >= 1,
            (faults as int + 1) * (size as int) <= data@.len() + faults,
            data@.len() < usize::MAX - 300,
            faults >= 1,
            shards@.len() == b,
            forall|q: int| 0 <= q < b
                ==> (#[trigger] shards@[q])@ == split_data(data@, faults as nat)[q],
            forall|q: int| 0 <= q < b ==> (#[trigger] shards@[q])@.len() == size,
        decreases faults + 1 - b,
    {
        proof {
            assert((b as int) * (size as int) <= (faults as int) * (size as int))
                by (nonlinear_arith)
                requires 0 <= b as int <= faults as int, size as int >= 0;
            assert((faults as int) * (size as int) + size as int
                == (faults as int + 1) * (size as int)) by (nonlinear_arith);
        }
        let mut chunk: Vec<u8> = Vec::new();
        let mut x: usize = 0;
        while x < size
            invariant
                x <= size,
                b <= faults,
                size >= 1,
                size == shard_size(data@.len(), faults as nat),
                (b as int) * (size as int) + size as int <= data@.len() + faults,
                data@.len() < usize::MAX - 300,
                chunk@ == split_data(data@, faults as nat)[b as int].take(x as int),
            decreases size - x,
        {
            let idx = b * size + x;
            if idx < data.len() {
                chunk.push(data[idx]);
            } else {
                chunk.push(0u8);
            }
            x = x + 1;
            proof {
                assert(chunk@ =~= split_data(data@, faults as nat)[b as int].take(x as int));
            }
        }
        proof {
            let row = split_data(data@, faults as nat)[b as int];
            assert(row.take(row.len() as int) =~= row);
        }
        shards.push(chunk);
        b = b + 1;
    }
    let mut q: usize = 0;
    while q < 2 * faults
        invariant
            q <= 2 * faults,
            size == shard_size(data@.len(), faults as nat),
            size >= 1,
            shards@.len() == faults + 1 + q,
            forall|j: int| 0 <= j < faults + 1
                ==> (#[trigger] shards@[j])@ == split_data(data@, faults as nat)[j],
            forall|j: int| 0 <= j < shards@.len() ==> (#[trigger] shards@[j])@.len() == size,
        decreases 2 * faults - q,
    {
        let mut z: Vec<u8> = Vec::new();
        let mut x: usize = 0;
        while x < size
            invariant
                x <= size,
                z@.len() == x,
            decreases size - x,
        {
            z.push(0u8);
            x = x + 1;
        }
        shards.push(z);
        q = q + 1;
    }
    proof {
        assert(bview(shards@).take(faults + 1) =~= split_data(data@, faults as nat));
    }
    let ghost before = shards@;
    rs_encode(faults, &mut shards);
    proof {
        assert(bview(before).take(faults + 1) =~= split_data(data@, faults as nat));
        assert forall|bq: int| 0 <= bq < faults + 1
            implies (#[trigger] shards@[bq])@ == split_data(data@, faults as nat)[bq] by {
            assert(shards@[bq]@ == before[bq]@);
            assert(bview(before).take(faults + 1)[bq] == before[bq]@);
        }
    }
    shards
}

/// Concatenation of a sequence of byte strings.
pub open spec fn concat_all(s: Seq<Seq<u8>>) -> Seq<u8>
    decreases s.len(),
{
    if s.len() == 0 {
        Seq::empty()
    } else {
        concat_all(s.drop_last()) + s.last()
    }
}

/// Rebuild the dispersed payload (with its zero padding) from the shards
/// handed in by at least `f+1` replicas: reconstruct the data shards and
/// concatenate them.
pub fn reconstruct_and_return(map: &Vec<Option<Vec<u8>>>, num_nodes: usize, num_faults: usize)
    -> (r: Result<Vec<u8>, ErasureError>)
    requires
        1 <= num_faults,
        num_nodes == 3 * num_faults + 1,
        num_nodes <= 256,
        map@.len() == num_nodes,
    ensures
        r is Ok <==> (present_uniform(oview(map@))
            && present_count(oview(map@)) >= num_faults + 1),
        r is Ok ==> forall|d: Seq<Seq<u8>>|
            #[trigger] agrees_with(oview(map@), rs_codeword(num_faults as nat, d))
                && d.len() == num_faults + 1
                ==> r->Ok_0@ == concat_all(d),
{
    let mut shard_vector: Vec<Option<Vec<u8>>> = Vec::new();
    let mut i: usize = 0;
    while i < num_nodes
        invariant
            i <= num_nodes,
            map@.len() == num_nodes,
            shard_vector@.len() == i,
            forall|q: int| 0 <= q < i
                ==> oview(shard_vector@)[q] == oview(map@)[q],
        decreases num_nodes - i,
    {
        match &map[i] {
            Some(shard) => shard_vector.push(Some(clone_bytes(shard))),
            None => shard_vector.push(None),
        }
        i = i + 1;
    }
    proof {
        assert(oview(shard_vector@) =~= oview(map@));
    }
    let res = rs_reconstruct_data(num_faults, &mut shard_vector);
    if res.is_err() {
        return Err(ErasureError::ErasureShortage);
    }
    let mut out: Vec<u8> = Vec::new();
    let ghost dpart = Seq::new((num_faults + 1) as nat, |q: int| oview(shard_vector@)[q].unwrap());
    let mut b: usize = 0;
    while b < num_faults + 1
        invariant
            b <= num_faults + 1,
            shard_vector@.len() == num_nodes,
            num_nodes == 3 * num_faults + 1,
            forall|q: int| 0 <= q < num_faults + 1 ==> (#[trigger] shard_vector@[q]) is Some,
            dpart == Seq::new((num_faults + 1) as nat, |q: int| oview(shard_vector@)[q].unwrap()),
            out@ == concat_all(dpart.take(b as int)),
        decreases num_faults + 1 - b,
    {
        match &shard_vector[b] {
            Some(shard) => {
                push_bytes(&mut out, shard);
            },
            None => {},
        }
        b = b + 1;
        proof {
            assert(dpart.take(b as int).drop_last() =~= dpart.take(b as int - 1));
            assert(out@ == concat_all(dpart.take(b as int)));
        }
    }
    proof {
        assert(dpart.take((num_faults + 1) as int) =~= dpart);
        assert forall|d: Seq<Seq<u8>>|
            #[trigger] agrees_with(oview(map@), rs_codeword(num_faults as nat, d))
                && d.len() == num_faults + 1
                implies out@ == concat_all(d) by {
            assert forall|q: int| 0 <= q < num_faults + 1
                implies dpart[q] == d[q] by {
                assert(oview(shard_vector@)[q] == Some(rs_codeword(num_faults as nat, d)[q]));
                assert(rs_codeword(num_faults as nat, d)[q] == d[q]);
            }
            assert(dpart =~= d);
        }
    }
    Ok(out)
}

/// The per-entry shard views of a map of `(shard, proof)` entries.
pub open spec fn entry_shards(s: Seq<Option<(Vec<u8>, MerkleProof)>>) -> Seq<Option<Seq<u8>>> {
    s.map_values(|o: Option<(Vec<u8>, MerkleProof)>| match o {
        Option::Some(p) => Option::Some(p.0@),
        Option::None => Option::None,
    })
}

/// The Merkle root over the shard hashes of a codeword.
pub open spec fn root_of_shards(cw: Seq<Seq<u8>>) -> Seq<u8> {
    merkle_root_spec(cw.map_values(|s: Seq<u8>| sha256_of(s)))
}

/// Rebuild every shard from the attested entries, re-hash them, rebuild the
/// Merkle tree, and hand back this replica's shard and fresh proof when the
/// rebuilt root matches the attested one.
pub fn reconstruct_and_verify(
    map: &Vec<Option<(Vec<u8>, MerkleProof)>>,
    num_nodes: usize,
    num_faults: usize,
    myid: usize,
    mr: &Hash32,
) -> (r: Result<(Vec<u8>, MerkleProof), ErasureError>)
    requires
        1 <= num_faults,
        num_nodes == 3 * num_faults + 1,
        num_nodes <= 256,
        map@.len() == num_nodes,
        myid < num_nodes,
    ensures
        r is Err ==> (r->Err_0 == ErasureError::ErasureShortage
            <==> !(present_uniform(entry_shards(map@))
                && present_count(entry_shards(map@)) >= num_faults + 1)),
        r is Ok ==> present_uniform(entry_shards(map@))
            && present_count(entry_shards(map@)) >= num_faults + 1,
        r is Ok ==> {
            let p = r->Ok_0.1;
            &&& p.index == myid
            &&& p.valid_spec()
            &&& p.root@ == mr@
            &&& p.item@ == sha256_of(r->Ok_0.0@)
        },
        forall|d: Seq<Seq<u8>>|
            #[trigger] agrees_with(entry_shards(map@), rs_codeword(num_faults as nat, d))
                && present_uniform(entry_shards(map@))
                && present_count(entry_shards(map@)) >= num_faults + 1
                ==> (r is Ok <==> root_of_shards(rs_codeword(num_faults as nat, d)) == mr@),
        forall|d: Seq<Seq<u8>>|
            #[trigger] agrees_with(entry_shards(map@), rs_codeword(num_faults as nat, d))
                && r is Ok
                ==> r->Ok_0.0@ == rs_codeword(num_faults as nat, d)[myid as int],
{
    let mut shard_vector: Vec<Option<Vec<u8>>> = Vec::new();
    let mut i: usize = 0;
    while i < num_nodes
        invariant
            i <= num_nodes,
            map@.len() == num_nodes,
            shard_vector@.len() == i,
            forall|q: int| 0 <= q < i
                ==> oview(shard_vector@)[q] == entry_shards(map@)[q],
        decreases num_nodes - i,
    {
        match &map[i] {
            Some(entry) => shard_vector.push(Some(clone_bytes(&entry.0))),
            None => shard_vector.push(None),
        }
        i = i + 1;
    }
    proof {
        assert(oview(shard_vector@) =~= entry_shards(map@));
    }
    let res = rs_reconstruct(num_faults, &mut shard_vector);
    if res.is_err() {
        return Err(ErasureError::ErasureShortage);
    }
    let mut items: Vec<Hash32> = Vec::new();
    let mut j: usize = 0;
    while j < num_nodes
        invariant
            j <= num_nodes,
            shard_vector@.len() == num_nodes,
            forall|q: int| 0 <= q < num_nodes ==> (#[trigger] shard_vector@[q]) is Some,
            items@.len() == j,
            forall|q: int| 0 <= q < j
                ==> (#[trigger] items@[q])@ == sha256_of(oview(shard_vector@)[q].unwrap()),
        decreases num_nodes - j,
    {
        match &shard_vector[j] {
            Some(shard) => {
                items.push(hash_of(shard));
            },
            None => {},
        }
        j = j + 1;
    }
    let ghost items_view = items@;
    let tree = MerkleTree::build(items);
    let root = tree.root();
    if root.equals(mr) {
        let own_proof = tree.gen_proof(myid);
        let mut own_shard: Vec<u8> = Vec::new();
        match &shard_vector[myid] {
            Some(shard) => {
                own_shard = clone_bytes(shard);
            },
            None => {},
        }
        proof {
            lemma_codeword_root(map@, shard_vector@, items_view, num_faults as nat, mr@);
        }
        Ok((own_shard, own_proof))
    } else {
        proof {
            lemma_codeword_root(map@, shard_vector@, items_view, num_faults as nat, mr@);
        }
        Err(ErasureError::ReconstructionRootMismatch)
    }
}

/// When the filled shard vector is a codeword, the rebuilt tree's leaves are
/// the codeword's shard hashes, so the rebuilt root is the codeword's root.
proof fn lemma_codeword_root(
    map: Seq<Option<(Vec<u8>, MerkleProof)>>,
    filled: Seq<Option<Vec<u8>>>,
    items: Seq<Hash32>,
    faults: nat,
    attested: Seq<u8>,
)
    requires
        items.len() == filled.len(),
        forall|q: int| 0 <= q < filled.len() ==> (#[trigger] filled[q]) is Some,
        forall|q: int| 0 <= q < items.len()
            ==> (#[trigger] items[q])@ == sha256_of(oview(filled)[q].unwrap()),
    ensures
        forall|d: Seq<Seq<u8>>|
            (#[trigger] rs_codeword(faults, d)).len() == filled.len()
                && (forall|i: int| 0 <= i < filled.len()
                    ==> oview(filled)[i] == Some(rs_codeword(faults, d)[i]))
                ==> merkle_root_spec(hview(items)) == root_of_shards(rs_codeword(faults, d)),
{
    assert forall|d: Seq<Seq<u8>>|
        (#[trigger] rs_codeword(faults, d)).len() == filled.len()
            && (forall|i: int| 0 <= i < filled.len()
                ==> oview(filled)[i] == Some(rs_codeword(faults, d)[i]))
            implies merkle_root_spec(hview(items)) == root_of_shards(rs_codeword(faults, d)) by {
        let cw = rs_codeword(faults, d);
        assert forall|q: int| 0 <= q < items.len()
            implies hview(items)[q] == cw.map_values(|s: Seq<u8>| sha256_of(s))[q] by {
            assert(oview(filled)[q] == Some(cw[q]));
            assert(items[q]@ == sha256_of(cw[q]));
        }
        assert(hview(items) =~= cw.map_values(|s: Seq<u8>| sha256_of(s)));
    }
}

} // verus!
