//! Quorum-intersection laws of the protocol, over the attestation rows the
//! state machines keep: why termination certifies `f+1` honest READY
//! senders, and why two replicas can never terminate one origin under two
//! different roots.
use vstd::prelude::*;
use vstd::set_lib::{set_int_range, lemma_int_range, lemma_len_union, lemma_len_subset};
use crate::wss::count_matching;
use crate::batch::count_root;

verus! {

/// The senders whose attestation in `row` is exactly `root`.
pub open spec fn attesters(row: Seq<Option<Seq<u8>>>, root: Seq<u8>) -> Set<int> {
    Set::new(|i: int| 0 <= i < row.len() && row[i] == Some(root))
}

/// The attesting senders are as many as the matching count.
pub proof fn lemma_attesters_count(row: Seq<Option<Seq<u8>>>, root: Seq<u8>)
    ensures
        attesters(row, root).finite(),
        attesters(row, root).len() == count_matching(row, root),
    decreases row.len(),
{
    if row.len() == 0 {
        assert(attesters(row, root) =~= Set::empty());
    } else {
        let pre = row.drop_last();
        lemma_attesters_count(pre, root);
        if row.last() == Some(root) {
            assert(attesters(row, root) =~= attesters(pre, root).insert(row.len() - 1));
            assert(!attesters(pre, root).contains(row.len() - 1));
        } else {
            assert(attesters(row, root) =~= attesters(pre, root));
        }
    }
}

/// The root each sender's shard entry chains to, forgetting the shard: a
/// batched attestation row seen as a light one.
pub open spec fn roots_of(brow: Seq<Option<(Seq<u8>, Seq<u8>)>>) -> Seq<Option<Seq<u8>>> {
    brow.map_values(|e: Option<(Seq<u8>, Seq<u8>)>| match e {
        Option::Some(p) => Option::Some(p.1),
        Option::None => Option::None,
    })
}

/// Counting a batched row by the root its entries chain to is counting the
/// light row of those roots, so the quorum laws below cover both instances.
pub proof fn lemma_count_root_as_matching(brow: Seq<Option<(Seq<u8>, Seq<u8>)>>, root: Seq<u8>)
    ensures
        count_root(brow, root) == count_matching(roots_of(brow), root),
    decreases brow.len(),
{
    if brow.len() > 0 {
        lemma_count_root_as_matching(brow.drop_last(), root);
        assert(roots_of(brow).drop_last() =~= roots_of(brow.drop_last()));
        assert(roots_of(brow).last() == (match brow.last() {
            Option::Some(p) => Option::Some(p.1),
            Option::None => Option::<Seq<u8>>::None,
        }));
    }
}

/// One attestation per sender per kind: a sender's slot holds at most one
/// root, so no sender can stand behind two different roots in one row.
pub proof fn lemma_one_attestation_per_sender(row: Seq<Option<Seq<u8>>>, r1: Seq<u8>, r2: Seq<u8>)
    requires
        r1 != r2,
    ensures
        attesters(row, r1).intersect(attesters(row, r2)) =~= Set::empty(),
{
}

/// Inclusion–exclusion, one direction: two finite sets cover at most their
/// union plus their intersection.
proof fn lemma_inclusion_exclusion<A>(s1: Set<A>, s2: Set<A>)
    requires
        s1.finite(),
        s2.finite(),
    ensures
        s1.len() + s2.len() <= s1.union(s2).len() + s1.intersect(s2).len(),
    decreases s1.len(),
{
    if s1.is_empty() {
        assert(s1.union(s2) =~= s2);
        assert(s1.intersect(s2) =~= Set::empty());
    } else {
        let a = s1.choose();
        let r1 = s1.remove(a);
        lemma_inclusion_exclusion(r1, s2.remove(a));
        if s2.contains(a) {
            assert(r1.union(s2.remove(a)) =~= s1.union(s2).remove(a));
            assert(r1.intersect(s2.remove(a)) =~= s1.intersect(s2).remove(a));
        } else {
            assert(r1.union(s2.remove(a)) =~= s1.union(s2).remove(a));
            assert(r1.intersect(s2.remove(a)) =~= s1.intersect(s2));
        }
    }
}

/// A finite set loses at most `|b|` elements when `b` is removed.
proof fn lemma_difference_lower_bound<A>(x: Set<A>, b: Set<A>)
    requires
        x.finite(),
        b.finite(),
    ensures
        x.difference(b).finite(),
        x.difference(b).len() >= x.len() - b.len(),
{
    let d = x.difference(b);
    assert(d.subset_of(x));
    lemma_len_subset(d, x);
    assert(x.subset_of(d.union(b)));
    lemma_len_union(d, b);
    lemma_len_subset(x, d.union(b));
}

/// Termination certifies honest READYs: when a row of `3f+1` sender slots
/// holds at least `2f+1` attestations of one root, then outside any set of
/// at most `f` Byzantine senders at least `f+1` senders attested that root.
///
/// This is why no honest replica terminates an origin before `f+1` honest
/// replicas have sent READY for it: the `2f+1` quorum the handler demands
/// cannot be met by the at most `f` Byzantine senders and fewer than `f+1`
/// honest ones.
pub proof fn lemma_termination_certifies_honest_readys(
    row: Seq<Option<Seq<u8>>>,
    root: Seq<u8>,
    f: int,
    byz: Set<int>,
)
    requires
        f >= 1,
        row.len() == 3 * f + 1,
        count_matching(row, root) >= 2 * f + 1,
        byz.finite(),
        byz.len() <= f,
    ensures
        attesters(row, root).difference(byz).finite(),
        attesters(row, root).difference(byz).len() >= f + 1,
        forall|i: int| attesters(row, root).difference(byz).contains(i)
            ==> 0 <= i < row.len() && row[i] == Some(root) && !byz.contains(i),
{
    lemma_attesters_count(row, root);
    lemma_difference_lower_bound(attesters(row, root), byz);
}

/// Quorum intersection: two rows of `3f+1` sender slots that agree, outside
/// at most `f` Byzantine senders, on what each sender attested cannot hold
/// `2f+1` attestations of two different roots.
///
/// Honest replicas that both terminate one origin therefore hold the same
/// root; with the erasure decoder's contract, the payloads they accept under
/// that root from any shard sets drawn from one codeword are byte-identical.
pub proof fn lemma_terminating_roots_agree(
    row_a: Seq<Option<Seq<u8>>>,
    row_b: Seq<Option<Seq<u8>>>,
    root_a: Seq<u8>,
    root_b: Seq<u8>,
    f: int,
    byz: Set<int>,
)
    requires
        f >= 1,
        row_a.len() == 3 * f + 1,
        row_b.len() == 3 * f + 1,
        count_matching(row_a, root_a) >= 2 * f + 1,
        count_matching(row_b, root_b) >= 2 * f + 1,
        byz.finite(),
        byz.len() <= f,
        // honest senders report one attestation to everyone
        forall|i: int| 0 <= i < 3 * f + 1 && !byz.contains(i)
            && row_a[i] is Some && row_b[i] is Some
            ==> row_a[i] == row_b[i],
    ensures
        root_a == root_b,
{
    let n = 3 * f + 1;
    let a = attesters(row_a, root_a);
    let b = attesters(row_b, root_b);
    let range = set_int_range(0, n);
    lemma_attesters_count(row_a, root_a);
    lemma_attesters_count(row_b, root_b);
    lemma_int_range(0, n);
    assert(a.union(b).subset_of(range));
    lemma_len_subset(a.union(b), range);
    lemma_inclusion_exclusion(a, b);
    assert(a.intersect(b).len() >= f + 1);
    assert(a.intersect(b).subset_of(range));
    lemma_len_subset(a.intersect(b), range);
    lemma_difference_lower_bound(a.intersect(b), byz);
    assert(a.intersect(b).difference(byz).len() >= 1);
    let i = a.intersect(b).difference(byz).choose();
    assert(a.intersect(b).difference(byz).contains(i));
    assert(row_a[i] == Some(root_a));
    assert(row_b[i] == Some(root_b));
    assert(row_a[i] == row_b[i]);
}

} // verus!
