use vstd::prelude::*;
use crate::dag::{Dag, DagState, block_views, dag_consistent, insert_fault, with_block, id_taken_by_other, lemma_admitted_id_fresh};
use crate::lexical::{texts, text_lt, str_lt, strictly_ascending, insert_text, lemma_text_lt_total, lemma_text_lt_asymmetric};
use crate::model::{AuthorityId, Block, BlockId, BlockView, Committee, id_set, id_texts, quorum_for, stake_of_set, authority_views, lemma_stake_of_set_views, lemma_stake_of_set_subset};
use crate::wave::{WaveRoundError, WaveRounds, wave_rounds, wave_representable, spec_wave_rounds};

verus! {

/// Outcome of the direct decision rule for one proposal (or for a slot without one).
#[derive(Clone, Copy, Debug, PartialEq, Eq, Structural)]
pub enum DecisionKind {
    Commit,
    Skip,
    NoDecision,
}

/// A slot decision with its audit evidence.
#[derive(Clone, Debug, PartialEq, Eq)]
pub struct Decision {
    pub slot: u32,
    pub proposal_id: Option<BlockId>,
    pub proposal_round: u32,
    pub kind: DecisionKind,
    pub support_stake: u64,
    pub certificate_author_stake: u64,
    pub support_authors: Vec<AuthorityId>,
    pub certificate_authors: Vec<AuthorityId>,
    pub evidence: Vec<String>,
}

/// A decision with texts in place of strings.
pub struct DecisionView {
    pub slot: u32,
    pub proposal_id: Option<Seq<char>>,
    pub proposal_round: u32,
    pub kind: DecisionKind,
    pub support_stake: u64,
    pub certificate_author_stake: u64,
    pub support_authors: Seq<Seq<char>>,
    pub certificate_authors: Seq<Seq<char>>,
    pub evidence: Seq<Seq<char>>,
}

/// The text of an optional string.
pub open spec fn opt_text(o: Option<String>) -> Option<Seq<char>> {
    match o {
        Some(s) => Some(s@),
        None => None,
    }
}

impl View for Decision {
    type V = DecisionView;

    open spec fn view(&self) -> DecisionView {
        DecisionView {
            slot: self.slot,
            proposal_id: opt_text(self.proposal_id),
            proposal_round: self.proposal_round,
            kind: self.kind,
            support_stake: self.support_stake,
            certificate_author_stake: self.certificate_author_stake,
            support_authors: id_texts(self.support_authors@),
            certificate_authors: id_texts(self.certificate_authors@),
            evidence: texts(self.evidence@),
        }
    }
}

/// Views of a sequence of decisions.
pub open spec fn decision_views(ds: Seq<Decision>) -> Seq<DecisionView> {
    ds.map_values(|d: Decision| d@)
}

/// `p` names a known proposal-round block of `slot`.
pub open spec fn proposal_in_slot(blocks: Map<Seq<char>, BlockView>, slot: u32, p: Seq<char>) -> bool {
    &&& wave_representable(slot)
    &&& blocks.contains_key(p)
    &&& blocks[p].slot == slot
    &&& blocks[p].round == 3 * slot
}

/// `m` is the least (by text) referenced proposal of `support`'s slot.
pub open spec fn least_vote(blocks: Map<Seq<char>, BlockView>, support: BlockView, m: Seq<char>) -> bool {
    &&& support.parents.contains(m)
    &&& proposal_in_slot(blocks, support.slot, m)
    &&& forall|q: Seq<char>| #[trigger] support.parents.contains(q) && proposal_in_slot(blocks, support.slot, q) ==> !text_lt(q, m)
}

/// The proposal a support block votes for: the least directly referenced proposal id
/// of its slot, if it references any.
pub open spec fn vote_of(blocks: Map<Seq<char>, BlockView>, support: BlockView) -> Option<Seq<char>> {
    if exists|m: Seq<char>| least_vote(blocks, support, m) {
        Some(choose|m: Seq<char>| least_vote(blocks, support, m))
    } else {
        None
    }
}

/// At most one id is the least vote of a support block.
pub proof fn lemma_least_vote_unique(blocks: Map<Seq<char>, BlockView>, support: BlockView, m1: Seq<char>, m2: Seq<char>)
    requires
        least_vote(blocks, support, m1),
        least_vote(blocks, support, m2),
    ensures
        m1 == m2,
{
    if m1 != m2 {
        lemma_text_lt_total(m1, m2);
    }
}

/// Canonical vote selection: the lexicographically smallest directly referenced
/// proposal id in the slot. Thus even malformed ancestry containing equivocations
/// gives a support block exactly one vote.
pub fn selected_proposal(dag: &Dag, support: &Block) -> (r: Option<BlockId>)
    ensures
        opt_text(r) == vote_of(dag@.blocks, support@),
{
    let ghost blocks = dag@.blocks;
    let ghost sv = support@;
    let proposal_round = match wave_rounds(support.slot) {
        Ok(rounds) => rounds.proposal,
        Err(_) => {
            proof {
                if exists|m: Seq<char>| least_vote(blocks, sv, m) {
                    let m = choose|m: Seq<char>| least_vote(blocks, sv, m);
                }
            }
            return None;
        },
    };
    let mut best: Option<String> = None;
    let mut i: usize = 0;
    let ghost ps = sv.parents;
    while i < support.parents.len()
        invariant
            blocks == dag@.blocks,
            sv == support@,
            ps == sv.parents,
            ps.len() == support.parents@.len(),
            wave_representable(sv.slot),
            proposal_round == 3 * sv.slot,
            i <= ps.len(),
            best is None ==> forall|k: int| 0 <= k < i ==> !proposal_in_slot(blocks, sv.slot, #[trigger] ps[k]),
            best matches Some(m) ==> ps.take(i as int).contains(m@) && proposal_in_slot(blocks, sv.slot, m@)
                && forall|k: int| 0 <= k < i && proposal_in_slot(blocks, sv.slot, #[trigger] ps[k]) ==> !text_lt(ps[k], m@),
        decreases ps.len() - i,
    {
        let id = &support.parents[i];
        assert(id@ == ps[i as int]);
        match dag.get(id) {
            Some(p) => {
                proof {
                    use_type_invariant(dag);
                    dag.lemma_view_ids();
                }
                if p.slot == support.slot && p.round == proposal_round {
                    assert(proposal_in_slot(blocks, sv.slot, id@));
                    let take_new = match &best {
                        None => true,
                        Some(b) => str_lt(p.id.as_str(), b.as_str()),
                    };
                    if take_new {
                        proof {
                            assert(p.id@ == id@);
                            assert(ps.take(i as int + 1)[i as int] == id@);
                            if best is Some {
                                let m = best->Some_0@;
                                assert forall|k: int| 0 <= k < i + 1 && proposal_in_slot(blocks, sv.slot, #[trigger] ps[k]) implies !text_lt(ps[k], id@) by {
                                    if k < i {
                                        if text_lt(ps[k], id@) {
                                            crate::lexical::lemma_text_lt_transitive(ps[k], id@, m);
                                        }
                                        lemma_text_lt_asymmetric(id@, m);
                                    } else {
                                        crate::lexical::lemma_text_lt_irreflexive(id@);
                                    }
                                }
                            } else {
                                crate::lexical::lemma_text_lt_irreflexive(id@);
                            }
                        }
                        best = Some(p.id.clone());
                    } else {
                        proof {
                            let m = best->Some_0@;
                            assert(ps.take(i as int).contains(m));
                            let j = choose|j: int| 0 <= j < ps.take(i as int).len() && ps.take(i as int)[j] == m;
                            assert(ps.take(i as int + 1)[j] == m);
                        }
                    }
                } else {
                    proof {
                        if best is Some {
                            let m = best->Some_0@;
                            let j = choose|j: int| 0 <= j < ps.take(i as int).len() && ps.take(i as int)[j] == m;
                            assert(ps.take(i as int + 1)[j] == m);
                        }
                    }
                }
            },
            None => {
                proof {
                    if best is Some {
                        let m = best->Some_0@;
                        let j = choose|j: int| 0 <= j < ps.take(i as int).len() && ps.take(i as int)[j] == m;
                        assert(ps.take(i as int + 1)[j] == m);
                    }
                }
            },
        }
        i = i + 1;
    }
    proof {
        assert(ps.take(ps.len() as int) =~= ps);
        match &best {
            Some(m) => {
                assert forall|q: Seq<char>| #[trigger] ps.contains(q) && proposal_in_slot(blocks, sv.slot, q) implies !text_lt(q, m@) by {
                    let k = choose|k: int| 0 <= k < ps.len() && ps[k] == q;
                }
                assert(least_vote(blocks, sv, m@));
                let c = choose|c: Seq<char>| least_vote(blocks, sv, c);
                lemma_least_vote_unique(blocks, sv, c, m@);
            },
            None => {
                if exists|c: Seq<char>| least_vote(blocks, sv, c) {
                    let c = choose|c: Seq<char>| least_vote(blocks, sv, c);
                    let k = choose|k: int| 0 <= k < ps.len() && ps[k] == c;
                }
            },
        }
    }
    best
}

/// The blocks of `s`, in order, that sit at `slot` and `round`.
pub open spec fn blocks_at(s: Seq<BlockView>, slot: u32, round: int) -> Seq<BlockView>
    decreases s.len(),
{
    if s.len() == 0 {
        Seq::empty()
    } else if s.last().slot == slot && s.last().round == round {
        blocks_at(s.drop_last(), slot, round).push(s.last())
    } else {
        blocks_at(s.drop_last(), slot, round)
    }
}

/// `b` is a support block of `slot` whose vote goes to `pid`.
pub open spec fn backs(blocks: Map<Seq<char>, BlockView>, b: BlockView, slot: u32, pid: Seq<char>) -> bool {
    &&& b.slot == slot
    &&& b.round == 3 * slot + 1
    &&& vote_of(blocks, b) == Some(pid)
}

/// Authors of the blocks of `s` that back `pid`.
pub open spec fn supporters(blocks: Map<Seq<char>, BlockView>, s: Seq<BlockView>, slot: u32, pid: Seq<char>) -> Set<Seq<char>> {
    Set::new(|a: Seq<char>| exists|i: int| 0 <= i < s.len() && #[trigger] backs(blocks, s[i], slot, pid) && s[i].author == a)
}

/// Authors of the known parents of `cert` that back `pid`.
pub open spec fn cert_backers(blocks: Map<Seq<char>, BlockView>, cert: BlockView, slot: u32, pid: Seq<char>) -> Set<Seq<char>> {
    backers_among(blocks, cert.parents, slot, pid)
}

/// Authors of the known blocks named in `ps` that back `pid`.
pub open spec fn backers_among(blocks: Map<Seq<char>, BlockView>, ps: Seq<Seq<char>>, slot: u32, pid: Seq<char>) -> Set<Seq<char>> {
    Set::new(|a: Seq<char>| exists|k: int| 0 <= k < ps.len() && #[trigger] blocks.contains_key(ps[k])
        && backs(blocks, blocks[ps[k]], slot, pid) && blocks[ps[k]].author == a)
}

/// `cert` is a certificate-round block of `slot` whose backing parents carry quorum stake for `pid`.
pub open spec fn qualifies(c: Committee, blocks: Map<Seq<char>, BlockView>, cert: BlockView, slot: u32, pid: Seq<char>) -> bool {
    &&& cert.slot == slot
    &&& cert.round == 3 * slot + 2
    &&& stake_of_set(c.roster(), cert_backers(blocks, cert, slot, pid)) >= quorum_for(c.total())
}

/// Authors of the qualifying certificate blocks of `s` for `pid`.
pub open spec fn certifiers(c: Committee, blocks: Map<Seq<char>, BlockView>, s: Seq<BlockView>, slot: u32, pid: Seq<char>) -> Set<Seq<char>> {
    Set::new(|a: Seq<char>| exists|i: int| 0 <= i < s.len() && #[trigger] qualifies(c, blocks, s[i], slot, pid) && s[i].author == a)
}

/// `list` holds exactly the texts of `set`, strictly ascending.
pub open spec fn lists_ascending(list: Seq<Seq<char>>, set: Set<Seq<char>>) -> bool {
    strictly_ascending(list) && list.to_set() == set
}

/// The evidence texts of a proposal decision.
pub open spec fn proposal_evidence() -> Seq<Seq<char>> {
    seq!["distinct-author support stake"@, "r+2 certificate-block author stake"@]
}

/// The evidence text of a skip.
pub open spec fn skip_evidence() -> Seq<Seq<char>> {
    seq!["educational skip: no round-r proposal observed by r+2"@]
}

/// `d` is the decision on proposal `pid` of `slot` in the DAG `dag` listed as `s`.
pub open spec fn is_proposal_decision(d: DecisionView, c: Committee, dag: DagState, s: Seq<BlockView>, slot: u32, pid: Seq<char>) -> bool {
    let sup = supporters(dag.blocks, s, slot, pid);
    let cer = certifiers(c, dag.blocks, s, slot, pid);
    &&& d.slot == slot
    &&& d.proposal_id == Some(pid)
    &&& d.proposal_round == 3 * slot
    &&& lists_ascending(d.support_authors, sup)
    &&& lists_ascending(d.certificate_authors, cer)
    &&& d.support_stake == stake_of_set(c.roster(), sup)
    &&& d.certificate_author_stake == stake_of_set(c.roster(), cer)
    &&& d.kind == if stake_of_set(c.roster(), cer) >= quorum_for(c.total()) { DecisionKind::Commit } else { DecisionKind::NoDecision }
    &&& d.evidence == proposal_evidence()
}

/// `d` is the skip decision of `slot`.
pub open spec fn is_skip_decision(d: DecisionView, slot: u32) -> bool {
    &&& d.slot == slot
    &&& d.proposal_id is None
    &&& d.proposal_round == 3 * slot
    &&& d.kind == DecisionKind::Skip
    &&& d.support_stake == 0
    &&& d.certificate_author_stake == 0
    &&& d.support_authors.len() == 0
    &&& d.certificate_authors.len() == 0
    &&& d.evidence == skip_evidence()
}

/// `ds` are the decisions of `slot`: one per proposal in id order, or a single skip.
pub open spec fn slot_decisions(ds: Seq<DecisionView>, c: Committee, dag: DagState, s: Seq<BlockView>, slot: u32) -> bool {
    let props = blocks_at(s, slot, 3 * slot);
    if props.len() == 0 {
        ds.len() == 1 && is_skip_decision(ds[0], slot)
    } else {
        &&& ds.len() == props.len()
        &&& forall|i: int| 0 <= i < ds.len() ==> is_proposal_decision(#[trigger] ds[i], c, dag, s, slot, props[i].id)
    }
}

/// Author ids with the texts of `v`.
fn to_authority_ids(v: Vec<String>) -> (r: Vec<AuthorityId>)
    ensures
        id_texts(r@) == texts(v@),
{
    let mut r: Vec<AuthorityId> = Vec::new();
    let mut i: usize = 0;
    while i < v.len()
        invariant
            i <= v@.len(),
            id_texts(r@) == texts(v@).subrange(0, i as int),
        decreases v@.len() - i,
    {
        let a = AuthorityId(v[i].clone());
        let ghost before = r@;
        r.push(a);
        proof {
            assert(id_texts(r@) =~= id_texts(before).push(a@));
            assert(texts(v@).subrange(0, i as int + 1) =~= texts(v@).subrange(0, i as int).push(v@[i as int]@));
        }
        i = i + 1;
    }
    proof {
        assert(texts(v@).subrange(0, v@.len() as int) =~= texts(v@));
    }
    r
}

/// Whether `b` backs `pid` (`b` support of `slot` voting for `pid`).
fn is_backing(dag: &Dag, b: &Block, slot: u32, support_round: u32, pid: &String) -> (r: bool)
    requires
        support_round == 3 * slot + 1,
    ensures
        r == backs(dag@.blocks, b@, slot, pid@),
{
    if b.slot == slot && b.round == support_round {
        match selected_proposal(dag, b) {
            Some(x) => x == *pid,
            None => false,
        }
    } else {
        false
    }
}

proof fn lemma_supporters_step(m: Map<Seq<char>, BlockView>, s: Seq<BlockView>, j: int, slot: u32, pid: Seq<char>)
    requires
        0 <= j < s.len(),
    ensures
        supporters(m, s.take(j + 1), slot, pid) == if backs(m, s[j], slot, pid) {
            supporters(m, s.take(j), slot, pid).insert(s[j].author)
        } else {
            supporters(m, s.take(j), slot, pid)
        },
{
    let a0 = supporters(m, s.take(j), slot, pid);
    let a1 = supporters(m, s.take(j + 1), slot, pid);
    let expected = if backs(m, s[j], slot, pid) { a0.insert(s[j].author) } else { a0 };
    assert forall|a: Seq<char>| a1.contains(a) <==> expected.contains(a) by {
        if a1.contains(a) {
            let i = choose|i: int| 0 <= i < s.take(j + 1).len() && #[trigger] backs(m, s.take(j + 1)[i], slot, pid) && s.take(j + 1)[i].author == a;
            if i < j {
                assert(s.take(j)[i] == s.take(j + 1)[i]);
            }
        }
        if a0.contains(a) {
            let i = choose|i: int| 0 <= i < s.take(j).len() && #[trigger] backs(m, s.take(j)[i], slot, pid) && s.take(j)[i].author == a;
            assert(s.take(j)[i] == s.take(j + 1)[i]);
        }
        if backs(m, s[j], slot, pid) && a == s[j].author {
            assert(s.take(j + 1)[j] == s[j]);
        }
    }
    assert(a1 =~= expected);
}

proof fn lemma_certifiers_step(c: Committee, m: Map<Seq<char>, BlockView>, s: Seq<BlockView>, j: int, slot: u32, pid: Seq<char>)
    requires
        0 <= j < s.len(),
    ensures
        certifiers(c, m, s.take(j + 1), slot, pid) == if qualifies(c, m, s[j], slot, pid) {
            certifiers(c, m, s.take(j), slot, pid).insert(s[j].author)
        } else {
            certifiers(c, m, s.take(j), slot, pid)
        },
{
    let a0 = certifiers(c, m, s.take(j), slot, pid);
    let a1 = certifiers(c, m, s.take(j + 1), slot, pid);
    let expected = if qualifies(c, m, s[j], slot, pid) { a0.insert(s[j].author) } else { a0 };
    assert forall|a: Seq<char>| a1.contains(a) <==> expected.contains(a) by {
        if a1.contains(a) {
            let i = choose|i: int| 0 <= i < s.take(j + 1).len() && #[trigger] qualifies(c, m, s.take(j + 1)[i], slot, pid) && s.take(j + 1)[i].author == a;
            if i < j {
                assert(s.take(j)[i] == s.take(j + 1)[i]);
            }
        }
        if a0.contains(a) {
            let i = choose|i: int| 0 <= i < s.take(j).len() && #[trigger] qualifies(c, m, s.take(j)[i], slot, pid) && s.take(j)[i].author == a;
            assert(s.take(j)[i] == s.take(j + 1)[i]);
        }
        if qualifies(c, m, s[j], slot, pid) && a == s[j].author {
            assert(s.take(j + 1)[j] == s[j]);
        }
    }
    assert(a1 =~= expected);
}

proof fn lemma_backers_step(m: Map<Seq<char>, BlockView>, ps: Seq<Seq<char>>, k: int, slot: u32, pid: Seq<char>)
    requires
        0 <= k < ps.len(),
    ensures
        backers_among(m, ps.take(k + 1), slot, pid) == if m.contains_key(ps[k]) && backs(m, m[ps[k]], slot, pid) {
            backers_among(m, ps.take(k), slot, pid).insert(m[ps[k]].author)
        } else {
            backers_among(m, ps.take(k), slot, pid)
        },
{
    let a0 = backers_among(m, ps.take(k), slot, pid);
    let a1 = backers_among(m, ps.take(k + 1), slot, pid);
    let hit = m.contains_key(ps[k]) && backs(m, m[ps[k]], slot, pid);
    let expected = if hit { a0.insert(m[ps[k]].author) } else { a0 };
    assert forall|a: Seq<char>| a1.contains(a) <==> expected.contains(a) by {
        if a1.contains(a) {
            let i = choose|i: int| 0 <= i < ps.take(k + 1).len() && #[trigger] m.contains_key(ps.take(k + 1)[i])
                && backs(m, m[ps.take(k + 1)[i]], slot, pid) && m[ps.take(k + 1)[i]].author == a;
            if i < k {
                assert(ps.take(k)[i] == ps.take(k + 1)[i]);
            }
        }
        if a0.contains(a) {
            let i = choose|i: int| 0 <= i < ps.take(k).len() && #[trigger] m.contains_key(ps.take(k)[i])
                && backs(m, m[ps.take(k)[i]], slot, pid) && m[ps.take(k)[i]].author == a;
            assert(ps.take(k)[i] == ps.take(k + 1)[i]);
        }
        if hit && a == m[ps[k]].author {
            assert(ps.take(k + 1)[k] == ps[k]);
        }
    }
    assert(a1 =~= expected);
}

/// Authors (ascending, distinct) of the support blocks of `slot` that vote for `pid`.
fn support_authors_for(dag: &Dag, slot: u32, support_round: u32, pid: &String) -> (r: Vec<String>)
    requires
        support_round == 3 * slot + 1,
    ensures
        lists_ascending(texts(r@), supporters(dag@.blocks, dag.listing(), slot, pid@)),
{
    let blocks = dag.blocks();
    let ghost s = dag.listing();
    let mut acc: Vec<String> = Vec::new();
    let mut j: usize = 0;
    proof {
        assert(supporters(dag@.blocks, s.take(0), slot, pid@) =~= Set::empty());
        assert(texts(acc@).to_set() =~= Set::empty());
    }
    while j < blocks.len()
        invariant
            block_views(blocks@) == s,
            s == dag.listing(),
            support_round == 3 * slot + 1,
            j <= blocks@.len(),
            strictly_ascending(texts(acc@)),
            texts(acc@).to_set() == supporters(dag@.blocks, s.take(j as int), slot, pid@),
        decreases blocks@.len() - j,
    {
        let b = &blocks[j];
        assert(b@ == s[j as int]);
        proof {
            lemma_supporters_step(dag@.blocks, s, j as int, slot, pid@);
        }
        if is_backing(dag, b, slot, support_round, pid) {
            insert_text(&mut acc, b.author.0.clone());
        }
        j = j + 1;
    }
    proof {
        assert(s.take(blocks@.len() as int) =~= s);
    }
    acc
}

/// Authors of the known parents of `cert` that back `pid` (with repeats).
fn backing_authors(dag: &Dag, cert: &Block, slot: u32, support_round: u32, pid: &String) -> (r: Vec<AuthorityId>)
    requires
        support_round == 3 * slot + 1,
    ensures
        id_set(r@) == cert_backers(dag@.blocks, cert@, slot, pid@),
{
    let ghost ps = cert@.parents;
    let ghost m = dag@.blocks;
    let mut acc: Vec<AuthorityId> = Vec::new();
    let mut k: usize = 0;
    proof {
        assert(backers_among(m, ps.take(0), slot, pid@) =~= Set::empty());
        assert(id_set(acc@) =~= Set::empty());
    }
    while k < cert.parents.len()
        invariant
            ps == cert@.parents,
            ps.len() == cert.parents@.len(),
            m == dag@.blocks,
            support_round == 3 * slot + 1,
            k <= ps.len(),
            id_set(acc@) == backers_among(m, ps.take(k as int), slot, pid@),
        decreases ps.len() - k,
    {
        let id = &cert.parents[k];
        assert(id@ == ps[k as int]);
        proof {
            lemma_backers_step(m, ps, k as int, slot, pid@);
        }
        match dag.get(id) {
            Some(b) => {
                if is_backing(dag, b, slot, support_round, pid) {
                    let a = b.author.duplicate();
                    let ghost before = acc@;
                    acc.push(a);
                    proof {
                        assert(id_texts(acc@) =~= id_texts(before).push(a@));
                        id_texts(before).lemma_push_to_set_commute(a@);
                    }
                }
            },
            None => {},
        }
        k = k + 1;
    }
    proof {
        assert(ps.take(ps.len() as int) =~= ps);
    }
    acc
}

/// Authors (ascending, distinct) of the certificate blocks of `slot` qualifying for `pid`.
fn certificate_authors_for(committee: &Committee, dag: &Dag, slot: u32, rounds: WaveRounds, pid: &String) -> (r: Vec<String>)
    requires
        wave_representable(slot),
        rounds == spec_wave_rounds(slot),
    ensures
        lists_ascending(texts(r@), certifiers(*committee, dag@.blocks, dag.listing(), slot, pid@)),
{
    let blocks = dag.blocks();
    let ghost s = dag.listing();
    let quorum = committee.quorum_threshold();
    let mut acc: Vec<String> = Vec::new();
    let mut j: usize = 0;
    proof {
        assert(certifiers(*committee, dag@.blocks, s.take(0), slot, pid@) =~= Set::empty());
        assert(texts(acc@).to_set() =~= Set::empty());
    }
    while j < blocks.len()
        invariant
            block_views(blocks@) == s,
            s == dag.listing(),
            wave_representable(slot),
            rounds == spec_wave_rounds(slot),
            quorum == quorum_for(committee.total()),
            j <= blocks@.len(),
            strictly_ascending(texts(acc@)),
            texts(acc@).to_set() == certifiers(*committee, dag@.blocks, s.take(j as int), slot, pid@),
        decreases blocks@.len() - j,
    {
        let c = &blocks[j];
        assert(c@ == s[j as int]);
        proof {
            lemma_certifiers_step(*committee, dag@.blocks, s, j as int, slot, pid@);
        }
        if c.slot == slot && c.round == rounds.certificate {
            let backers = backing_authors(dag, c, slot, rounds.support, pid);
            let stake = committee.distinct_stake(backers.as_slice());
            if stake >= quorum {
                insert_text(&mut acc, c.author.0.clone());
            }
        }
        j = j + 1;
    }
    proof {
        assert(s.take(blocks@.len() as int) =~= s);
    }
    acc
}

/// The decision on `proposal`, a proposal-round block of `slot`.
pub(crate) fn decision_for(committee: &Committee, dag: &Dag, slot: u32, rounds: WaveRounds, proposal: &Block) -> (d: Decision)
    requires
        wave_representable(slot),
        rounds == spec_wave_rounds(slot),
    ensures
        is_proposal_decision(d@, *committee, dag@, dag.listing(), slot, proposal@.id),
{
    let sup = support_authors_for(dag, slot, rounds.support, &proposal.id);
    let cer = certificate_authors_for(committee, dag, slot, rounds, &proposal.id);
    let support_authors = to_authority_ids(sup);
    let certificate_authors = to_authority_ids(cer);
    let support_stake = committee.distinct_stake(support_authors.as_slice());
    let certificate_author_stake = committee.distinct_stake(certificate_authors.as_slice());
    let kind = if certificate_author_stake >= committee.quorum_threshold() {
        DecisionKind::Commit
    } else {
        DecisionKind::NoDecision
    };
    let mut evidence: Vec<String> = Vec::new();
    evidence.push(String::from_str("distinct-author support stake"));
    evidence.push(String::from_str("r+2 certificate-block author stake"));
    let d = Decision {
        slot,
        proposal_id: Some(proposal.id.clone()),
        proposal_round: rounds.proposal,
        kind,
        support_stake,
        certificate_author_stake,
        support_authors,
        certificate_authors,
        evidence,
    };
    proof {
        assert(texts(d.evidence@) =~= proposal_evidence());
    }
    d
}

/// The skip decision of `slot`.
pub(crate) fn skip_decision(slot: u32, proposal_round: u32) -> (d: Decision)
    ensures
        d@.slot == slot,
        d@.proposal_id is None,
        d@.proposal_round == proposal_round,
        d@.kind == DecisionKind::Skip,
        d@.support_stake == 0,
        d@.certificate_author_stake == 0,
        d@.support_authors.len() == 0,
        d@.certificate_authors.len() == 0,
        d@.evidence == skip_evidence(),
{
    let mut evidence: Vec<String> = Vec::new();
    evidence.push(String::from_str("educational skip: no round-r proposal observed by r+2"));
    let d = Decision {
        slot,
        proposal_id: None,
        proposal_round,
        kind: DecisionKind::Skip,
        support_stake: 0,
        certificate_author_stake: 0,
        support_authors: Vec::new(),
        certificate_authors: Vec::new(),
        evidence,
    };
    proof {
        assert(texts(d.evidence@) =~= skip_evidence());
    }
    d
}

/// Direct decisions for `slot`: one per proposal (ascending id), or a single skip.
pub fn evaluate_slot(committee: &Committee, dag: &Dag, slot: u32) -> (res: Result<Vec<Decision>, WaveRoundError>)
    ensures
        res is Ok <==> wave_representable(slot),
        res matches Err(e) ==> e == (WaveRoundError { slot }),
        res matches Ok(ds) ==> slot_decisions(decision_views(ds@), *committee, dag@, dag.listing(), slot),
{
    let rounds = match wave_rounds(slot) {
        Ok(r) => r,
        Err(e) => return Err(e),
    };
    let blocks = dag.blocks();
    let ghost s = dag.listing();
    let mut out: Vec<Decision> = Vec::new();
    let mut i: usize = 0;
    proof {
        assert(s.take(0) =~= Seq::<BlockView>::empty());
    }
    while i < blocks.len()
        invariant
            block_views(blocks@) == s,
            s == dag.listing(),
            wave_representable(slot),
            rounds == spec_wave_rounds(slot),
            i <= blocks@.len(),
            out@.len() == blocks_at(s.take(i as int), slot, 3 * slot).len(),
            forall|k: int| 0 <= k < out@.len() ==> is_proposal_decision(#[trigger] out@[k]@, *committee, dag@, s, slot, blocks_at(s.take(i as int), slot, 3 * slot)[k].id),
        decreases blocks@.len() - i,
    {
        let p = &blocks[i];
        assert(p@ == s[i as int]);
        proof {
            assert(s.take(i as int + 1).drop_last() =~= s.take(i as int));
            assert(s.take(i as int + 1).last() == s[i as int]);
        }
        if p.slot == slot && p.round == rounds.proposal {
            let d = decision_for(committee, dag, slot, rounds, p);
            out.push(d);
        }
        i = i + 1;
    }
    proof {
        assert(s.take(blocks@.len() as int) =~= s);
    }
    if out.len() == 0 {
        out.push(skip_decision(slot, rounds.proposal));
    }
    proof {
        let dv = decision_views(out@);
        assert forall|k: int| 0 <= k < dv.len() implies dv[k] == out@[k]@ by {}
    }
    Ok(out)
}

/// Decisions of all slots `0..configured_slots`, slot by slot; the first
/// unrepresentable slot is reported.
pub fn evaluate_all(committee: &Committee, dag: &Dag, configured_slots: u32) -> (res: Result<Vec<Decision>, WaveRoundError>)
    ensures
        res is Ok <==> configured_slots == 0 || wave_representable((configured_slots - 1) as u32),
        res matches Err(e) ==> e == (WaveRoundError { slot: first_unrepresentable_slot() }),
        res matches Ok(ds) ==> all_decisions(decision_views(ds@), *committee, dag@, dag.listing(), configured_slots as int),
{
    let mut out: Vec<Decision> = Vec::new();
    let mut slot: u32 = 0;
    proof {
        assert(decision_views(out@) =~= Seq::<DecisionView>::empty());
    }
    while slot < configured_slots
        invariant
            slot <= configured_slots,
            forall|t: u32| t < slot ==> wave_representable(t),
            all_decisions(decision_views(out@), *committee, dag@, dag.listing(), slot as int),
        decreases configured_slots - slot,
    {
        let ds = match evaluate_slot(committee, dag, slot) {
            Ok(ds) => ds,
            Err(e) => {
                proof {
                    lemma_representable_prefix(slot, configured_slots);
                }
                return Err(e);
            },
        };
        let ghost before = decision_views(out@);
        let mut ds = ds;
        let ghost added = decision_views(ds@);
        out.append(&mut ds);
        proof {
            assert(decision_views(out@) =~= before + added);
            assert(all_decisions(decision_views(out@), *committee, dag@, dag.listing(), slot as int + 1)) by {
                assert((before + added).subrange(0, before.len() as int) =~= before);
                assert((before + added).subrange(before.len() as int, (before + added).len() as int) =~= added);
            }
        }
        slot = slot + 1;
    }
    proof {
        if configured_slots > 0 {
            assert(wave_representable((configured_slots - 1) as u32));
        }
    }
    Ok(out)
}

/// The decisions of slots `0..n` concatenated slot by slot.
pub open spec fn all_decisions(ds: Seq<DecisionView>, c: Committee, dag: DagState, s: Seq<BlockView>, n: int) -> bool
    decreases n,
{
    if n <= 0 {
        ds.len() == 0
    } else {
        exists|k: int| 0 <= k <= ds.len() && all_decisions(#[trigger] ds.subrange(0, k), c, dag, s, n - 1)
            && slot_decisions(ds.subrange(k, ds.len() as int), c, dag, s, (n - 1) as u32)
    }
}

/// The first slot whose wave is unrepresentable (`3s + 2` exceeds `u32::MAX`).
pub open spec fn first_unrepresentable_slot() -> u32 {
    0x5555_5555
}

proof fn lemma_representable_prefix(slot: u32, n: u32)
    requires
        !wave_representable(slot),
        forall|t: u32| t < slot ==> wave_representable(t),
        slot < n,
    ensures
        !wave_representable((n - 1) as u32),
        slot == first_unrepresentable_slot(),
{
    if slot > 0 {
        assert(wave_representable((slot - 1) as u32));
    }
}

/// Two decisions agree on every evidence-bearing field (all but the evidence labels).
pub open spec fn agrees(a: DecisionView, e: DecisionView) -> bool {
    &&& a.slot == e.slot
    &&& a.proposal_id == e.proposal_id
    &&& a.proposal_round == e.proposal_round
    &&& a.kind == e.kind
    &&& a.support_authors == e.support_authors
    &&& a.certificate_authors == e.certificate_authors
    &&& a.support_stake == e.support_stake
    &&& a.certificate_author_stake == e.certificate_author_stake
}

/// Two decision lists agree position by position.
pub open spec fn agree_all(a: Seq<DecisionView>, e: Seq<DecisionView>) -> bool {
    &&& a.len() == e.len()
    &&& forall|i: int| 0 <= i < a.len() ==> agrees(#[trigger] a[i], e[i])
}

/// The decisions of a slot are determined (up to evidence labels) by the DAG.
pub proof fn lemma_slot_decisions_unique(ds1: Seq<DecisionView>, ds2: Seq<DecisionView>, c: Committee, dag: DagState, s: Seq<BlockView>, slot: u32)
    requires
        slot_decisions(ds1, c, dag, s, slot),
        slot_decisions(ds2, c, dag, s, slot),
    ensures
        agree_all(ds1, ds2),
        forall|i: int| 0 <= i < ds1.len() ==> #[trigger] ds1[i].evidence == ds2[i].evidence,
{
    let props = blocks_at(s, slot, 3 * slot);
    if props.len() == 0 {
        assert(ds1[0].support_authors =~= ds2[0].support_authors);
        assert(ds1[0].certificate_authors =~= ds2[0].certificate_authors);
    } else {
        assert forall|i: int| 0 <= i < ds1.len() implies #[trigger] ds1[i].evidence == ds2[i].evidence by {
            assert(is_proposal_decision(ds1[i], c, dag, s, slot, props[i].id));
            assert(is_proposal_decision(ds2[i], c, dag, s, slot, props[i].id));
        }
        assert forall|i: int| 0 <= i < ds1.len() implies agrees(#[trigger] ds1[i], ds2[i]) by {
            assert(is_proposal_decision(ds1[i], c, dag, s, slot, props[i].id));
            assert(is_proposal_decision(ds2[i], c, dag, s, slot, props[i].id));
            crate::lexical::lemma_ascending_unique(ds1[i].support_authors, ds2[i].support_authors);
            crate::lexical::lemma_ascending_unique(ds1[i].certificate_authors, ds2[i].certificate_authors);
        }
    }
}

/// The decisions of slots `0..n` are determined (up to evidence labels) by the DAG.
pub proof fn lemma_all_decisions_unique(ds1: Seq<DecisionView>, ds2: Seq<DecisionView>, c: Committee, dag: DagState, s: Seq<BlockView>, n: int)
    requires
        all_decisions(ds1, c, dag, s, n),
        all_decisions(ds2, c, dag, s, n),
    ensures
        agree_all(ds1, ds2),
        forall|i: int| 0 <= i < ds1.len() ==> #[trigger] ds1[i].evidence == ds2[i].evidence,
    decreases n,
{
    if n > 0 {
        let k1 = choose|k: int| 0 <= k <= ds1.len() && all_decisions(#[trigger] ds1.subrange(0, k), c, dag, s, n - 1)
            && slot_decisions(ds1.subrange(k, ds1.len() as int), c, dag, s, (n - 1) as u32);
        let k2 = choose|k: int| 0 <= k <= ds2.len() && all_decisions(#[trigger] ds2.subrange(0, k), c, dag, s, n - 1)
            && slot_decisions(ds2.subrange(k, ds2.len() as int), c, dag, s, (n - 1) as u32);
        lemma_all_decisions_unique(ds1.subrange(0, k1), ds2.subrange(0, k2), c, dag, s, n - 1);
        lemma_slot_decisions_unique(ds1.subrange(k1, ds1.len() as int), ds2.subrange(k2, ds2.len() as int), c, dag, s, (n - 1) as u32);
        assert forall|i: int| 0 <= i < ds1.len() implies agrees(#[trigger] ds1[i], ds2[i]) && ds1[i].evidence == ds2[i].evidence by {
            if i < k1 {
                assert(ds1.subrange(0, k1)[i] == ds1[i]);
                assert(ds2.subrange(0, k2)[i] == ds2[i]);
            } else {
                assert(ds1.subrange(k1, ds1.len() as int)[i - k1] == ds1[i]);
                assert(ds2.subrange(k2, ds2.len() as int)[i - k1] == ds2[i]);
            }
        }
    } else {
    }
}

/// The decisions of slots `0..n` are determined by the DAG, evidence labels included.
pub proof fn lemma_all_decisions_equal(ds1: Seq<DecisionView>, ds2: Seq<DecisionView>, c: Committee, dag: DagState, s: Seq<BlockView>, n: int)
    requires
        all_decisions(ds1, c, dag, s, n),
        all_decisions(ds2, c, dag, s, n),
    ensures
        ds1 == ds2,
{
    lemma_all_decisions_unique(ds1, ds2, c, dag, s, n);
    assert forall|i: int| 0 <= i < ds1.len() implies #[trigger] ds1[i] == ds2[i] by {
        assert(agrees(ds1[i], ds2[i]));
        assert(ds1[i].evidence == ds2[i].evidence);
    }
    assert(ds1 =~= ds2);
}

/// Committees with the same members (by id text and stake) and total decide alike.
pub open spec fn same_weights(c1: Committee, c2: Committee) -> bool {
    &&& authority_views(c1.roster()) == authority_views(c2.roster())
    &&& c1.total() == c2.total()
}

proof fn lemma_slot_decisions_congruent(ds: Seq<DecisionView>, c1: Committee, c2: Committee, dag: DagState, s: Seq<BlockView>, slot: u32)
    requires
        same_weights(c1, c2),
        slot_decisions(ds, c1, dag, s, slot),
    ensures
        slot_decisions(ds, c2, dag, s, slot),
{
    let props = blocks_at(s, slot, 3 * slot);
    if props.len() > 0 {
        assert forall|i: int| 0 <= i < ds.len() implies is_proposal_decision(#[trigger] ds[i], c2, dag, s, slot, props[i].id) by {
            let pid = props[i].id;
            assert(is_proposal_decision(ds[i], c1, dag, s, slot, pid));
            assert forall|x: BlockView| qualifies(c1, dag.blocks, x, slot, pid) == #[trigger] qualifies(c2, dag.blocks, x, slot, pid) by {
                lemma_stake_of_set_views(c1.roster(), c2.roster(), cert_backers(dag.blocks, x, slot, pid));
            }
            assert forall|a: Seq<char>| #[trigger] certifiers(c1, dag.blocks, s, slot, pid).contains(a) <==> certifiers(c2, dag.blocks, s, slot, pid).contains(a) by {
                if certifiers(c1, dag.blocks, s, slot, pid).contains(a) {
                    let j = choose|j: int| 0 <= j < s.len() && #[trigger] qualifies(c1, dag.blocks, s[j], slot, pid) && s[j].author == a;
                    assert(qualifies(c2, dag.blocks, s[j], slot, pid));
                }
                if certifiers(c2, dag.blocks, s, slot, pid).contains(a) {
                    let j = choose|j: int| 0 <= j < s.len() && #[trigger] qualifies(c2, dag.blocks, s[j], slot, pid) && s[j].author == a;
                    assert(qualifies(c1, dag.blocks, s[j], slot, pid));
                }
            }
            assert(certifiers(c1, dag.blocks, s, slot, pid) =~= certifiers(c2, dag.blocks, s, slot, pid));
            lemma_stake_of_set_views(c1.roster(), c2.roster(), supporters(dag.blocks, s, slot, pid));
            lemma_stake_of_set_views(c1.roster(), c2.roster(), certifiers(c1, dag.blocks, s, slot, pid));
        }
    }
}

/// Committees with the same weights give the same decisions.
pub proof fn lemma_all_decisions_congruent(ds: Seq<DecisionView>, c1: Committee, c2: Committee, dag: DagState, s: Seq<BlockView>, n: int)
    requires
        same_weights(c1, c2),
        all_decisions(ds, c1, dag, s, n),
    ensures
        all_decisions(ds, c2, dag, s, n),
    decreases n,
{
    if n > 0 {
        let k = choose|k: int| 0 <= k <= ds.len() && all_decisions(#[trigger] ds.subrange(0, k), c1, dag, s, n - 1)
            && slot_decisions(ds.subrange(k, ds.len() as int), c1, dag, s, (n - 1) as u32);
        lemma_all_decisions_congruent(ds.subrange(0, k), c1, c2, dag, s, n - 1);
        lemma_slot_decisions_congruent(ds.subrange(k, ds.len() as int), c1, c2, dag, s, (n - 1) as u32);
    }
}

/// The number of commit decisions among `ds`.
pub open spec fn commits_in(ds: Seq<DecisionView>) -> nat
    decreases ds.len(),
{
    if ds.len() == 0 {
        0
    } else {
        commits_in(ds.drop_last()) + if ds.last().kind == DecisionKind::Commit { 1nat } else { 0nat }
    }
}

/// Counts the commit decisions.
pub fn commit_count(decisions: &[Decision]) -> (r: usize)
    ensures
        r == commits_in(decision_views(decisions@)),
{
    let mut count: usize = 0;
    let mut i: usize = 0;
    while i < decisions.len()
        invariant
            i <= decisions@.len(),
            count == commits_in(decision_views(decisions@.take(i as int))),
            count <= i,
        decreases decisions@.len() - i,
    {
        proof {
            assert(decision_views(decisions@.take(i + 1)).drop_last() =~= decision_views(decisions@.take(i as int)));
            assert(decision_views(decisions@.take(i + 1)).last() == decisions@[i as int]@);
        }
        if decisions[i].kind == DecisionKind::Commit {
            count = count + 1;
        }
        i = i + 1;
    }
    proof {
        assert(decisions@.take(decisions@.len() as int) =~= decisions@);
    }
    count
}

/// Each of the decisions of slots `0..n` is a skip or the decision on a proposal of its slot.
pub proof fn lemma_each_decision(ds: Seq<DecisionView>, c: Committee, dag: DagState, s: Seq<BlockView>, n: int, i: int)
    requires
        all_decisions(ds, c, dag, s, n),
        0 <= i < ds.len(),
    ensures
        is_skip_decision(ds[i], ds[i].slot)
            || (ds[i].proposal_id is Some && is_proposal_decision(ds[i], c, dag, s, ds[i].slot, ds[i].proposal_id->Some_0)),
    decreases n,
{
    if n > 0 {
        let k = choose|k: int| 0 <= k <= ds.len() && all_decisions(#[trigger] ds.subrange(0, k), c, dag, s, n - 1)
            && slot_decisions(ds.subrange(k, ds.len() as int), c, dag, s, (n - 1) as u32);
        if i < k {
            lemma_each_decision(ds.subrange(0, k), c, dag, s, n - 1, i);
            assert(ds.subrange(0, k)[i] == ds[i]);
        } else {
            let rest = ds.subrange(k, ds.len() as int);
            assert(rest[i - k] == ds[i]);
            let slot = (n - 1) as u32;
            let props = blocks_at(s, slot, 3 * slot);
            if props.len() > 0 {
                assert(is_proposal_decision(rest[i - k], c, dag, s, slot, props[i - k].id));
            }
        }
    }
}


/// A block whose parents are all stored keeps its vote when a block with a new id joins.
proof fn lemma_vote_kept(m: Map<Seq<char>, BlockView>, b: BlockView, x: BlockView)
    requires
        !m.contains_key(b.id),
        forall|k: int| 0 <= k < x.parents.len() ==> m.contains_key(#[trigger] x.parents[k]),
    ensures
        vote_of(m.insert(b.id, b), x) == vote_of(m, x),
{
    let m2 = m.insert(b.id, b);
    assert forall|q: Seq<char>| #[trigger] x.parents.contains(q) implies
        proposal_in_slot(m2, x.slot, q) == proposal_in_slot(m, x.slot, q) by {
        let k = choose|k: int| 0 <= k < x.parents.len() && x.parents[k] == q;
        assert(m.contains_key(x.parents[k]));
    }
    assert forall|q: Seq<char>| least_vote(m2, x, q) <==> least_vote(m, x, q) by {
        if x.parents.contains(q) {
            assert(proposal_in_slot(m2, x.slot, q) == proposal_in_slot(m, x.slot, q));
        }
    }
    if exists|q: Seq<char>| least_vote(m, x, q) {
        let q = choose|q: Seq<char>| least_vote(m, x, q);
        assert(least_vote(m2, x, q));
        let q2 = choose|q: Seq<char>| least_vote(m2, x, q);
        assert(least_vote(m, x, q2));
        lemma_least_vote_unique(m, x, q, q2);
    } else {
        assert(!exists|q: Seq<char>| least_vote(m2, x, q));
    }
}

/// What the decision rule reads of a stored block stays the same when a block with a
/// new id joins a consistent DAG.
proof fn lemma_backing_kept(c: Committee, dag: DagState, b: BlockView, x: BlockView, slot: u32, pid: Seq<char>)
    requires
        dag_consistent(c.roster(), dag),
        !dag.blocks.contains_key(b.id),
        dag.blocks.contains_key(x.id),
        dag.blocks[x.id] == x,
    ensures
        backs(with_block(dag, b).blocks, x, slot, pid) == backs(dag.blocks, x, slot, pid),
        qualifies(c, with_block(dag, b).blocks, x, slot, pid) == qualifies(c, dag.blocks, x, slot, pid),
{
    let m = dag.blocks;
    let m2 = with_block(dag, b).blocks;
    assert(forall|k: int| 0 <= k < x.parents.len() ==> m.contains_key(#[trigger] x.parents[k]));
    lemma_vote_kept(m, b, x);
    assert forall|a: Seq<char>| cert_backers(m2, x, slot, pid).contains(a) <==> cert_backers(m, x, slot, pid).contains(a) by {
        if cert_backers(m2, x, slot, pid).contains(a) {
            let k = choose|k: int| 0 <= k < x.parents.len() && #[trigger] m2.contains_key(x.parents[k])
                && backs(m2, m2[x.parents[k]], slot, pid) && m2[x.parents[k]].author == a;
            lemma_parent_backing_kept(c, dag, b, x, k, slot, pid);
        }
        if cert_backers(m, x, slot, pid).contains(a) {
            let k = choose|k: int| 0 <= k < x.parents.len() && #[trigger] m.contains_key(x.parents[k])
                && backs(m, m[x.parents[k]], slot, pid) && m[x.parents[k]].author == a;
            lemma_parent_backing_kept(c, dag, b, x, k, slot, pid);
        }
    }
    assert(cert_backers(m2, x, slot, pid) =~= cert_backers(m, x, slot, pid));
}

/// A stored block's stored parent backs as before when a block with a new id joins.
proof fn lemma_parent_backing_kept(c: Committee, dag: DagState, b: BlockView, x: BlockView, k: int, slot: u32, pid: Seq<char>)
    requires
        dag_consistent(c.roster(), dag),
        !dag.blocks.contains_key(b.id),
        dag.blocks.contains_key(x.id),
        dag.blocks[x.id] == x,
        0 <= k < x.parents.len(),
    ensures
        with_block(dag, b).blocks.contains_key(x.parents[k]),
        dag.blocks.contains_key(x.parents[k]),
        with_block(dag, b).blocks[x.parents[k]] == dag.blocks[x.parents[k]],
        backs(with_block(dag, b).blocks, dag.blocks[x.parents[k]], slot, pid) == backs(dag.blocks, dag.blocks[x.parents[k]], slot, pid),
{
    let m = dag.blocks;
    let p = x.parents[k];
    assert(m.contains_key(p));
    assert(p != b.id);
    let y = m[p];
    assert(y.id == p);
    assert(forall|j: int| 0 <= j < y.parents.len() ==> m.contains_key(#[trigger] y.parents[j]));
    lemma_vote_kept(m, b, y);
}

/// The decision on one proposal, before and after a consistent DAG admits one more block.
proof fn lemma_decision_grows(c: Committee, d1: Dag, d2: Dag, b: BlockView, slot: u32, pid: Seq<char>, x1: DecisionView, x2: DecisionView)
    requires
        d1.valid(),
        d2.valid(),
        dag_consistent(c.roster(), d1@),
        insert_fault(c.roster(), d1@, b) is None,
        d2@ == with_block(d1@, b),
        !id_taken_by_other(d1@, b),
        is_proposal_decision(x1, c, d1@, d1.listing(), slot, pid),
        is_proposal_decision(x2, c, d2@, d2.listing(), slot, pid),
    ensures
        x1.support_authors.to_set().subset_of(x2.support_authors.to_set()),
        x1.certificate_authors.to_set().subset_of(x2.certificate_authors.to_set()),
        x1.support_stake <= x2.support_stake,
        x1.certificate_author_stake <= x2.certificate_author_stake,
        x1.kind == DecisionKind::Commit ==> x2.kind == DecisionKind::Commit,
{
    let m1 = d1@.blocks;
    let m2 = d2@.blocks;
    let s1 = d1.listing();
    let s2 = d2.listing();
    d1.lemma_listing();
    d2.lemma_listing();
    lemma_admitted_id_fresh(c.roster(), d1@, b);
    let sup1 = supporters(m1, s1, slot, pid);
    let sup2 = supporters(m2, s2, slot, pid);
    let cer1 = certifiers(c, m1, s1, slot, pid);
    let cer2 = certifiers(c, m2, s2, slot, pid);
    assert forall|a: Seq<char>| sup1.contains(a) implies sup2.contains(a) by {
        let i = choose|i: int| 0 <= i < s1.len() && #[trigger] backs(m1, s1[i], slot, pid) && s1[i].author == a;
        let x = s1[i];
        assert(m1.contains_key(x.id) && m1[x.id] == x);
        lemma_backing_kept(c, d1@, b, x, slot, pid);
        assert(m2.contains_key(x.id));
        let j = choose|j: int| 0 <= j < s2.len() && s2[j].id == x.id;
        assert(s2[j] == m2[x.id]);
        assert(backs(m2, s2[j], slot, pid));
    }
    assert forall|a: Seq<char>| cer1.contains(a) implies cer2.contains(a) by {
        let i = choose|i: int| 0 <= i < s1.len() && #[trigger] qualifies(c, m1, s1[i], slot, pid) && s1[i].author == a;
        let x = s1[i];
        assert(m1.contains_key(x.id) && m1[x.id] == x);
        lemma_backing_kept(c, d1@, b, x, slot, pid);
        assert(m2.contains_key(x.id));
        let j = choose|j: int| 0 <= j < s2.len() && s2[j].id == x.id;
        assert(s2[j] == m2[x.id]);
        assert(qualifies(c, m2, s2[j], slot, pid));
    }
    assert(sup1.subset_of(sup2));
    assert(cer1.subset_of(cer2));
    lemma_stake_of_set_subset(c.roster(), sup1, sup2);
    lemma_stake_of_set_subset(c.roster(), cer1, cer2);
}


/// The blocks at a slot and round are exactly the listed blocks there.
proof fn lemma_blocks_at_contains(s: Seq<BlockView>, slot: u32, r: int, x: BlockView)
    ensures
        blocks_at(s, slot, r).contains(x) <==> (s.contains(x) && x.slot == slot && x.round == r),
    decreases s.len(),
{
    if s.len() > 0 {
        let p = s.drop_last();
        lemma_blocks_at_contains(p, slot, r, x);
        assert(s =~= p.push(s.last()));
        assert(s.contains(x) <==> (p.contains(x) || x == s.last())) by {
            if s.contains(x) {
                let k = choose|k: int| 0 <= k < s.len() && s[k] == x;
                if k < p.len() {
                    assert(p[k] == x);
                }
            }
            if p.contains(x) {
                let k = choose|k: int| 0 <= k < p.len() && p[k] == x;
                assert(s[k] == x);
            }
            assert(s[s.len() - 1] == s.last());
        }
        let q = blocks_at(p, slot, r);
        if s.last().slot == slot && s.last().round == r {
            assert(q.push(s.last()).contains(x) <==> (q.contains(x) || x == s.last())) by {
                if q.push(s.last()).contains(x) {
                    let k = choose|k: int| 0 <= k < q.len() + 1 && q.push(s.last())[k] == x;
                    if k < q.len() {
                        assert(q[k] == x);
                    }
                }
                if q.contains(x) {
                    let k = choose|k: int| 0 <= k < q.len() && q[k] == x;
                    assert(q.push(s.last())[k] == x);
                }
                assert(q.push(s.last())[q.len() as int] == s.last());
            }
        }
    }
}

/// Decisions only grow as blocks arrive: when a consistent DAG admits one more block
/// (unless a stored block of another identity has its id), every
/// proposal decided before is decided after, keeping every supporting and certifying
/// author, with neither stake falling, and a commit stays a commit.
pub proof fn decisions_only_grow(c: Committee, d1: Dag, d2: Dag, b: BlockView, slot: u32,
    ds1: Seq<DecisionView>, ds2: Seq<DecisionView>, i1: int)
    requires
        d1.valid(),
        d2.valid(),
        dag_consistent(c.roster(), d1@),
        insert_fault(c.roster(), d1@, b) is None,
        d2@ == with_block(d1@, b),
        !id_taken_by_other(d1@, b),
        slot_decisions(ds1, c, d1@, d1.listing(), slot),
        slot_decisions(ds2, c, d2@, d2.listing(), slot),
        0 <= i1 < ds1.len(),
        ds1[i1].proposal_id is Some,
    ensures
        exists|i2: int| 0 <= i2 < ds2.len() && #[trigger] ds2[i2].proposal_id == ds1[i1].proposal_id && {
            let x1 = ds1[i1];
            let x2 = ds2[i2];
            &&& x1.support_authors.to_set().subset_of(x2.support_authors.to_set())
            &&& x1.certificate_authors.to_set().subset_of(x2.certificate_authors.to_set())
            &&& x1.support_stake <= x2.support_stake
            &&& x1.certificate_author_stake <= x2.certificate_author_stake
            &&& (x1.kind == DecisionKind::Commit ==> x2.kind == DecisionKind::Commit)
        },
{
    let s1 = d1.listing();
    let s2 = d2.listing();
    d1.lemma_listing();
    d2.lemma_listing();
    lemma_admitted_id_fresh(c.roster(), d1@, b);
    let props1 = blocks_at(s1, slot, 3 * slot);
    let props2 = blocks_at(s2, slot, 3 * slot);
    if props1.len() == 0 {
        assert(is_skip_decision(ds1[0], slot));
    }
    assert(is_proposal_decision(ds1[i1], c, d1@, s1, slot, props1[i1].id));
    let pid = props1[i1].id;
    let x = props1[i1];
    assert(props1.contains(x));
    lemma_blocks_at_contains(s1, slot, 3 * slot, x);
    let k = choose|k: int| 0 <= k < s1.len() && s1[k] == x;
    assert(d1@.blocks.contains_key(s1[k].id));
    assert(d2@.blocks.contains_key(x.id) && d2@.blocks[x.id] == x);
    let j = choose|j: int| 0 <= j < s2.len() && s2[j].id == x.id;
    assert(s2[j] == x);
    assert(s2.contains(x));
    lemma_blocks_at_contains(s2, slot, 3 * slot, x);
    let i2 = choose|i2: int| 0 <= i2 < props2.len() && props2[i2] == x;
    assert(is_proposal_decision(ds2[i2], c, d2@, s2, slot, props2[i2].id));
    lemma_decision_grows(c, d1, d2, b, slot, pid, ds1[i1], ds2[i2]);
}

} // verus!
