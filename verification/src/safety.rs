use vstd::prelude::*;
use crate::dag::Dag;
use crate::decision::{
    DecisionKind, DecisionView, backs, cert_backers, certifiers, is_proposal_decision, qualifies,
    slot_decisions, supporters, blocks_at,
};
use crate::model::{
    Committee, quorum_for, fault_bound_for, stake_of_set, quorum_intersection_contains_honest,
    lemma_stake_of_set_subset, lemma_positive_stake_has_member, lemma_stake_of_set_le_total,
};
use crate::model::BlockView;
use crate::wave::wave_representable;

verus! {

/// `b` sits in the support round of its (representable) wave.
pub open spec fn is_support_block(b: BlockView) -> bool {
    wave_representable(b.slot) && b.round == 3 * b.slot + 1
}

/// Every author outside `z` has at most one support block per slot in the listing `s`.
pub open spec fn honest_single_support(s: Seq<BlockView>, z: Set<Seq<char>>) -> bool {
    forall|i: int, j: int| 0 <= i < s.len() && 0 <= j < s.len() && same_supporter(#[trigger] s[i], #[trigger] s[j], z) ==> i == j
}

/// `a` and `b` are support blocks of one slot by the same author outside `z`.
pub open spec fn same_supporter(a: BlockView, b: BlockView, z: Set<Seq<char>>) -> bool {
    is_support_block(a) && is_support_block(b) && a.slot == b.slot && a.author == b.author && !z.contains(a.author)
}

/// Certificate uniqueness: with Byzantine stake within the fault bound and honest
/// single support, two proposals of one slot that both gather quorum support are the same.
pub proof fn certified_proposals_agree(
    c: Committee,
    d: Dag,
    z: Set<Seq<char>>,
    slot: u32,
    p1: Seq<char>,
    p2: Seq<char>,
)
    requires
        c.valid(),
        d.valid(),
        stake_of_set(c.roster(), z) <= fault_bound_for(c.total()),
        honest_single_support(d.listing(), z),
        stake_of_set(c.roster(), supporters(d@.blocks, d.listing(), slot, p1)) >= quorum_for(c.total()),
        stake_of_set(c.roster(), supporters(d@.blocks, d.listing(), slot, p2)) >= quorum_for(c.total()),
    ensures
        p1 == p2,
{
    let s = d.listing();
    let m = d@.blocks;
    let s1 = supporters(m, s, slot, p1);
    let s2 = supporters(m, s, slot, p2);
    quorum_intersection_contains_honest(c, s1, s2, z);
    let k = choose|k: int| 0 <= k < c.roster().len() && #[trigger] s1.intersect(s2).difference(z).contains(c.roster()[k].id@);
    let a = c.roster()[k].id@;
    assert(s1.contains(a) && s2.contains(a) && !z.contains(a));
    let i = choose|i: int| 0 <= i < s.len() && #[trigger] backs(m, s[i], slot, p1) && s[i].author == a;
    let j = choose|j: int| 0 <= j < s.len() && #[trigger] backs(m, s[j], slot, p2) && s[j].author == a;
    assert(same_supporter(s[i], s[j], z));
    assert(i == j);
}

/// Backers of a certificate block in the DAG are supporters of the same proposal.
proof fn lemma_backers_are_supporters(d: Dag, cert: BlockView, slot: u32, pid: Seq<char>)
    requires
        d.valid(),
    ensures
        cert_backers(d@.blocks, cert, slot, pid).subset_of(supporters(d@.blocks, d.listing(), slot, pid)),
{
    d.lemma_listing();
    let m = d@.blocks;
    let s = d.listing();
    assert forall|a: Seq<char>| #[trigger] cert_backers(m, cert, slot, pid).contains(a) implies supporters(m, s, slot, pid).contains(a) by {
        let k = choose|k: int| 0 <= k < cert.parents.len() && #[trigger] m.contains_key(cert.parents[k])
            && backs(m, m[cert.parents[k]], slot, pid) && m[cert.parents[k]].author == a;
        let id = cert.parents[k];
        let i = choose|i: int| 0 <= i < s.len() && s[i].id == id;
        assert(m[s[i].id] == s[i]);
        assert(backs(m, s[i], slot, pid));
    }
}

/// A proposal whose certificate authors carry quorum stake has quorum support.
pub proof fn lemma_commit_has_quorum_support(c: Committee, d: Dag, slot: u32, pid: Seq<char>)
    requires
        c.valid(),
        d.valid(),
        stake_of_set(c.roster(), certifiers(c, d@.blocks, d.listing(), slot, pid)) >= quorum_for(c.total()),
    ensures
        stake_of_set(c.roster(), supporters(d@.blocks, d.listing(), slot, pid)) >= quorum_for(c.total()),
{
    let m = d@.blocks;
    let s = d.listing();
    let cer = certifiers(c, m, s, slot, pid);
    lemma_positive_stake_has_member(c.roster(), cer);
    let k = choose|k: int| 0 <= k < c.roster().len() && #[trigger] cer.contains(c.roster()[k].id@);
    let a = c.roster()[k].id@;
    let i = choose|i: int| 0 <= i < s.len() && #[trigger] qualifies(c, m, s[i], slot, pid) && s[i].author == a;
    lemma_backers_are_supporters(d, s[i], slot, pid);
    lemma_stake_of_set_subset(c.roster(), cert_backers(m, s[i], slot, pid), supporters(m, s, slot, pid));
}

/// No conflicting direct commits: among the decisions of one slot, all commits name the
/// same proposal, when Byzantine stake is within the fault bound and honest authors
/// support at most once per slot.
pub proof fn direct_commits_agree(
    c: Committee,
    d: Dag,
    z: Set<Seq<char>>,
    slot: u32,
    ds: Seq<DecisionView>,
    i: int,
    j: int,
)
    requires
        c.valid(),
        d.valid(),
        stake_of_set(c.roster(), z) <= fault_bound_for(c.total()),
        honest_single_support(d.listing(), z),
        slot_decisions(ds, c, d@, d.listing(), slot),
        0 <= i < ds.len(),
        0 <= j < ds.len(),
        ds[i].kind == DecisionKind::Commit,
        ds[j].kind == DecisionKind::Commit,
    ensures
        ds[i].proposal_id == ds[j].proposal_id,
{
    let s = d.listing();
    let props = blocks_at(s, slot, 3 * slot);
    if props.len() == 0 {
        assert(ds[0].kind == DecisionKind::Skip);
    } else {
        assert(is_proposal_decision(ds[i], c, d@, s, slot, props[i].id));
        assert(is_proposal_decision(ds[j], c, d@, s, slot, props[j].id));
        lemma_commit_has_quorum_support(c, d, slot, props[i].id);
        lemma_commit_has_quorum_support(c, d, slot, props[j].id);
        certified_proposals_agree(c, d, z, slot, props[i].id, props[j].id);
    }
}

/// Support and certificate-author stakes of a decision never exceed the total stake:
/// repeated authors and equivocations are counted once.
pub proof fn decision_stakes_bounded(c: Committee, d: Dag, slot: u32, ds: Seq<DecisionView>, i: int)
    requires
        c.valid(),
        slot_decisions(ds, c, d@, d.listing(), slot),
        0 <= i < ds.len(),
    ensures
        ds[i].support_stake <= c.total(),
        ds[i].certificate_author_stake <= c.total(),
{
    let s = d.listing();
    let props = blocks_at(s, slot, 3 * slot);
    c.lemma_roster();
    if props.len() > 0 {
        assert(is_proposal_decision(ds[i], c, d@, s, slot, props[i].id));
        lemma_stake_of_set_le_total(c.roster(), supporters(d@.blocks, s, slot, props[i].id));
        lemma_stake_of_set_le_total(c.roster(), certifiers(c, d@.blocks, s, slot, props[i].id));
    }
}

} // verus!
