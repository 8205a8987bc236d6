//! Binary Merkle tree over `n` 32-byte leaf items, with inclusion proofs.
//!
//! Leaves are ordered by replica id.  A level with an odd number of nodes
//! duplicates its last node.  Leaf labels and inner nodes are domain-separated
//! SHA-256: `leaf = H(0x00 ++ item)`, `node = H(0x01 ++ left ++ right)`.
use vstd::prelude::*;
use crate::hashing::{sha256_of, Hash32, hash_of, push_bytes};

verus! {

/// Label of a leaf holding `item`.
pub open spec fn leaf_label(item: Seq<u8>) -> Seq<u8> {
    sha256_of(seq![0u8] + item)
}

/// Label of an inner node over children `l` and `r`.
pub open spec fn node_label(l: Seq<u8>, r: Seq<u8>) -> Seq<u8> {
    sha256_of(seq![1u8] + l + r)
}

/// The views of a sequence of digests.
pub open spec fn hview(s: Seq<Hash32>) -> Seq<Seq<u8>> {
    s.map_values(|h: Hash32| h@)
}

/// One level up: adjacent nodes are paired, a trailing odd node is paired
/// with itself.
pub open spec fn next_level(level: Seq<Seq<u8>>) -> Seq<Seq<u8>> {
    Seq::new((level.len() + 1) / 2, |i: int|
        node_label(
            level[2 * i],
            if 2 * i + 1 < level.len() { level[2 * i + 1] } else { level[2 * i] },
        ))
}

/// The root label of a non-empty level.
pub open spec fn root_of_level(level: Seq<Seq<u8>>) -> Seq<u8>
    decreases level.len(),
{
    if level.len() <= 1 {
        if level.len() == 1 { level[0] } else { Seq::empty() }
    } else {
        root_of_level(next_level(level))
    }
}

/// The Merkle root of a sequence of leaf items.
pub open spec fn merkle_root_spec(items: Seq<Seq<u8>>) -> Seq<u8> {
    root_of_level(items.map_values(|x: Seq<u8>| leaf_label(x)))
}

/// Walk an inclusion path from a label at position `idx` up to a root.
pub open spec fn follow_path(label: Seq<u8>, idx: nat, sibs: Seq<Seq<u8>>) -> Seq<u8>
    decreases sibs.len(),
{
    if sibs.len() == 0 {
        label
    } else {
        let joined = if idx % 2 == 0 {
            node_label(label, sibs[0])
        } else {
            node_label(sibs[0], label)
        };
        follow_path(joined, idx / 2, sibs.skip(1))
    }
}

/// An inclusion proof: the leaf item, its index, the sibling labels from the
/// leaf level upward, and the root the path commits to.
pub struct MerkleProof {
    pub item: Hash32,
    pub index: usize,
    pub path: Vec<Hash32>,
    pub root: Hash32,
}

impl MerkleProof {
    /// The path from this proof's leaf reaches this proof's root.
    pub open spec fn valid_spec(&self) -> bool {
        follow_path(leaf_label(self.item@), self.index as nat, hview(self.path@)) == self.root@
    }

    /// An independent copy of the proof.
    pub fn dup(&self) -> (r: MerkleProof)
        ensures
            r.item@ == self.item@,
            r.index == self.index,
            hview(r.path@) == hview(self.path@),
            r.root@ == self.root@,
            r.valid_spec() == self.valid_spec(),
    {
        let mut path: Vec<Hash32> = Vec::new();
        let mut i: usize = 0;
        while i < self.path.len()
            invariant
                i <= self.path@.len(),
                hview(path@) == hview(self.path@).take(i as int),
            decreases self.path@.len() - i,
        {
            path.push(self.path[i].dup());
            i = i + 1;
            proof {
                assert(hview(path@) =~= hview(self.path@).take(i as int));
            }
        }
        proof {
            assert(hview(self.path@).take(self.path@.len() as int) =~= hview(self.path@));
        }
        MerkleProof { item: self.item.dup(), index: self.index, path, root: self.root.dup() }
    }

    /// Recompute the path and compare it with the embedded root.
    pub fn validate(&self) -> (r: bool)
        ensures
            r == self.valid_spec(),
    {
        let mut cur: Hash32 = leaf_hash(&self.item);
        let mut idx: usize = self.index;
        let mut k: usize = 0;
        proof {
            assert(hview(self.path@).skip(0) =~= hview(self.path@));
        }
        while k < self.path.len()
            invariant
                k <= self.path@.len(),
                follow_path(leaf_label(self.item@), self.index as nat, hview(self.path@))
                    == follow_path(cur@, idx as nat, hview(self.path@).skip(k as int)),
            decreases self.path@.len() - k,
        {
            let ghost pre = hview(self.path@).skip(k as int);
            proof {
                assert(pre[0] == self.path@[k as int]@);
                assert(pre.skip(1) =~= hview(self.path@).skip(k as int + 1));
            }
            if idx % 2 == 0 {
                cur = node_hash(&cur, &self.path[k]);
            } else {
                cur = node_hash(&self.path[k], &cur);
            }
            idx = idx / 2;
            k = k + 1;
        }
        proof {
            assert(hview(self.path@).skip(self.path@.len() as int) =~= Seq::<Seq<u8>>::empty());
        }
        self.root.equals(&cur)
    }
}

/// `H(0x00 ++ item)`.
pub fn leaf_hash(item: &Hash32) -> (r: Hash32)
    ensures
        r@ == leaf_label(item@),
        r@.len() == 32,
{
    let mut buf: Vec<u8> = Vec::new();
    buf.push(0u8);
    push_bytes(&mut buf, &item.bytes);
    proof {
        assert(buf@ =~= seq![0u8] + item@);
    }
    hash_of(&buf)
}

/// `H(0x01 ++ l ++ r)`.
pub fn node_hash(l: &Hash32, r: &Hash32) -> (h: Hash32)
    ensures
        h@ == node_label(l@, r@),
        h@.len() == 32,
{
    let mut buf: Vec<u8> = Vec::new();
    buf.push(1u8);
    push_bytes(&mut buf, &l.bytes);
    push_bytes(&mut buf, &r.bytes);
    proof {
        assert(buf@ =~= seq![1u8] + l@ + r@);
    }
    hash_of(&buf)
}

/// A built tree: the leaf items and every level of labels, bottom first.
pub struct MerkleTree {
    pub items: Vec<Hash32>,
    pub levels: Vec<Vec<Hash32>>,
}

impl MerkleTree {
    /// The levels chain from the leaf labels up to a single root.
    pub open spec fn wf(&self) -> bool {
        &&& self.items@.len() >= 1
        &&& self.levels@.len() >= 1
        &&& hview(self.levels@[0]@) == self.items@.map_values(|x: Hash32| leaf_label(x@))
        &&& forall|k: int| 0 <= k < self.levels@.len() - 1
            ==> hview(#[trigger] self.levels@[k + 1]@) == next_level(hview(self.levels@[k]@))
        &&& forall|k: int| 0 <= k < self.levels@.len() - 1 ==> (#[trigger] self.levels@[k]@).len() >= 2
        &&& self.levels@[self.levels@.len() - 1]@.len() == 1
    }

    /// The root this tree commits to.
    pub open spec fn spec_root(&self) -> Seq<u8> {
        merkle_root_spec(hview(self.items@))
    }

    /// Build the tree over the given leaf items.
    pub fn build(items: Vec<Hash32>) -> (t: MerkleTree)
        requires
            items@.len() >= 1,
        ensures
            t.wf(),
            t.items@ == items@,
    {
        let mut base: Vec<Hash32> = Vec::new();
        let mut i: usize = 0;
        while i < items.len()
            invariant
                i <= items@.len(),
                hview(base@) == items@.map_values(|x: Hash32| leaf_label(x@)).take(i as int),
            decreases items@.len() - i,
        {
            base.push(leaf_hash(&items[i]));
            i = i + 1;
            proof {
                assert(hview(base@) =~= items@.map_values(|x: Hash32| leaf_label(x@)).take(i as int));
            }
        }
        proof {
            let full = items@.map_values(|x: Hash32| leaf_label(x@));
            assert(full.take(full.len() as int) =~= full);
        }
        let mut levels: Vec<Vec<Hash32>> = Vec::new();
        levels.push(base);
        let mut top: usize = 0;
        while levels[top].len() > 1
            invariant
                levels@.len() >= 1,
                top == levels@.len() - 1,
                hview(levels@[0]@) == items@.map_values(|x: Hash32| leaf_label(x@)),
                forall|k: int| 0 <= k < levels@.len() - 1
                    ==> hview(#[trigger] levels@[k + 1]@) == next_level(hview(levels@[k]@)),
                forall|k: int| 0 <= k < levels@.len() - 1 ==> (#[trigger] levels@[k]@).len() >= 2,
                levels@[levels@.len() - 1]@.len() >= 1,
            decreases levels@[levels@.len() - 1]@.len(),
        {
            let cur_len = levels[top].len();
            let half = cur_len / 2 + cur_len % 2;
            let mut nxt: Vec<Hash32> = Vec::new();
            let mut j: usize = 0;
            while j < half
                invariant
                    top < levels@.len(),
                    cur_len == levels@[top as int]@.len(),
                    cur_len >= 2,
                    half == (cur_len + 1) / 2,
                    j <= half,
                    hview(nxt@) == next_level(hview(levels@[top as int]@)).take(j as int),
                decreases half - j,
            {
                let left = &levels[top][2 * j];
                let h: Hash32;
                if 2 * j + 1 < cur_len {
                    h = node_hash(left, &levels[top][2 * j + 1]);
                } else {
                    h = node_hash(left, left);
                }
                nxt.push(h);
                j = j + 1;
                proof {
                    assert(hview(nxt@) =~= next_level(hview(levels@[top as int]@)).take(j as int));
                }
            }
            proof {
                let nl = next_level(hview(levels@[top as int]@));
                assert(j == nl.len());
                assert(nl.take(nl.len() as int) =~= nl);
                assert(nl.len() < cur_len);
            }
            top = levels.len();
            levels.push(nxt);
        }
        MerkleTree { items, levels }
    }

    /// The root label.
    pub fn root(&self) -> (r: Hash32)
        requires
            self.wf(),
        ensures
            r@ == self.spec_root(),
    {
        proof {
            lemma_spec_root(self);
        }
        let top = self.levels.len() - 1;
        self.levels[top][0].dup()
    }

    /// An inclusion proof for leaf `i`; it validates against this tree's root.
    pub fn gen_proof(&self, i: usize) -> (p: MerkleProof)
        requires
            self.wf(),
            i < self.items@.len(),
        ensures
            p.index == i,
            p.item@ == self.items@[i as int]@,
            p.root@ == self.spec_root(),
            p.valid_spec(),
    {
        let ghost lbl0 = leaf_label(self.items@[i as int]@);
        let mut path: Vec<Hash32> = Vec::new();
        let mut idx: usize = i;
        let mut k: usize = 0;
        proof {
            assert(hview(self.levels@[0]@).len() == self.items@.len());
            assert(hview(self.levels@[0]@)[i as int] == lbl0);
            assert forall|rest: Seq<Seq<u8>>|
                follow_path(lbl0, i as nat, hview(path@) + rest)
                    == #[trigger] follow_path(hview(self.levels@[0]@)[i as int], i as nat, rest) by {
                assert(hview(path@) + rest =~= rest);
            }
        }
        while k < self.levels.len() - 1
            invariant
                k < self.levels@.len(),
                idx < self.levels@[k as int]@.len(),
                idx <= i,
                forall|rest: Seq<Seq<u8>>|
                    follow_path(lbl0, i as nat, hview(path@) + rest)
                        == #[trigger] follow_path(
                            hview(self.levels@[k as int]@)[idx as int],
                            idx as nat,
                            rest,
                        ),
            decreases self.levels@.len() - k,
        {
            let level_len = self.levels[k].len();
            let sib: Hash32;
            if idx % 2 == 0 {
                if idx + 1 < level_len {
                    sib = self.levels[k][idx + 1].dup();
                } else {
                    sib = self.levels[k][idx].dup();
                }
            } else {
                sib = self.levels[k][idx - 1].dup();
            }
            let ghost pre = hview(path@);
            let ghost svw = sib@;
            let ghost k0 = k as int;
            let ghost idx0 = idx as int;
            proof {
                lemma_gen_proof_step(self, k0, idx0, i as nat, lbl0, pre, svw, Seq::empty());
            }
            path.push(sib);
            idx = idx / 2;
            k = k + 1;
            proof {
                assert(hview(path@) =~= pre + seq![svw]);
                assert forall|rest: Seq<Seq<u8>>|
                    follow_path(lbl0, i as nat, hview(path@) + rest)
                        == #[trigger] follow_path(
                            hview(self.levels@[k as int]@)[idx as int],
                            idx as nat,
                            rest,
                        ) by {
                    lemma_gen_proof_step(self, k0, idx0, i as nat, lbl0, pre, svw, rest);
                    assert(hview(path@) + rest =~= (pre + seq![svw]) + rest);
                }
            }
        }
        let top = self.levels.len() - 1;
        proof {
            lemma_spec_root(self);
            let empty = Seq::<Seq<u8>>::empty();
            assert(idx == 0);
            assert(follow_path(lbl0, i as nat, hview(path@) + empty)
                == follow_path(hview(self.levels@[k as int]@)[0], 0nat, empty));
            assert(follow_path(hview(self.levels@[k as int]@)[0], 0nat, empty)
                == hview(self.levels@[k as int]@)[0]);
            assert(hview(path@) + empty =~= hview(path@));
        }
        MerkleProof {
            item: self.items[i].dup(),
            index: i,
            path,
            root: self.levels[top][0].dup(),
        }
    }
}

/// From any level of a well-formed tree, folding levels reaches the top label.
proof fn lemma_root_chain(t: &MerkleTree, k: int)
    requires
        t.wf(),
        0 <= k < t.levels@.len(),
    ensures
        root_of_level(hview(t.levels@[k]@)) == hview(t.levels@[t.levels@.len() - 1]@)[0],
    decreases t.levels@.len() - k,
{
    let last = t.levels@.len() - 1;
    if k == last {
        assert(hview(t.levels@[k]@).len() == 1);
    } else {
        assert(hview(t.levels@[k]@).len() >= 2);
        assert(hview(t.levels@[k + 1]@) == next_level(hview(t.levels@[k]@)));
        lemma_root_chain(t, k + 1);
    }
}

/// The root the tree commits to is the top label of a well-formed tree.
proof fn lemma_spec_root(t: &MerkleTree)
    requires
        t.wf(),
    ensures
        t.spec_root() == hview(t.levels@[t.levels@.len() - 1]@)[0],
{
    lemma_root_chain(t, 0);
    assert(t.items@.map_values(|x: Hash32| leaf_label(x@))
        =~= hview(t.items@).map_values(|x: Seq<u8>| leaf_label(x)));
}

/// One step of proof generation: appending the right sibling keeps the
/// path-extension identity, one level up.
proof fn lemma_gen_proof_step(
    t: &MerkleTree,
    k: int,
    idx: int,
    i: nat,
    lbl0: Seq<u8>,
    pviews: Seq<Seq<u8>>,
    sib: Seq<u8>,
    rest: Seq<Seq<u8>>,
)
    requires
        t.wf(),
        0 <= k < t.levels@.len() - 1,
        0 <= idx < t.levels@[k]@.len(),
        forall|rest: Seq<Seq<u8>>|
            follow_path(lbl0, i, pviews + rest)
                == #[trigger] follow_path(hview(t.levels@[k]@)[idx], idx as nat, rest),
        sib == if idx % 2 == 0 {
            if idx + 1 < t.levels@[k]@.len() {
                hview(t.levels@[k]@)[idx + 1]
            } else {
                hview(t.levels@[k]@)[idx]
            }
        } else {
            hview(t.levels@[k]@)[idx - 1]
        },
    ensures
        idx / 2 < t.levels@[k + 1]@.len(),
        follow_path(lbl0, i, (pviews + seq![sib]) + rest)
            == follow_path(hview(t.levels@[k + 1]@)[idx / 2], (idx / 2) as nat, rest),
{
    let level = hview(t.levels@[k]@);
    let up = hview(t.levels@[k + 1]@);
    assert(up == next_level(level));
    let j = idx / 2;
    assert(up[j] == node_label(
        level[2 * j],
        if 2 * j + 1 < level.len() { level[2 * j + 1] } else { level[2 * j] },
    ));
    let joined = if idx % 2 == 0 { node_label(level[idx], sib) } else { node_label(sib, level[idx]) };
    assert(joined == up[j]);
    let ext = seq![sib] + rest;
    assert((pviews + seq![sib]) + rest =~= pviews + ext);
    assert(follow_path(lbl0, i, pviews + ext)
        == follow_path(level[idx], idx as nat, ext));
    assert(ext[0] == sib);
    assert(ext.skip(1) =~= rest);
    assert(follow_path(level[idx], idx as nat, ext)
        == follow_path(joined, j as nat, rest));
}

} // verus!
