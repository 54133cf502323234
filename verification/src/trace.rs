use vstd::prelude::*;
use crate::dag::{Dag, DagError, DagFault, DagState, block_views, build_outcome, lemma_build_outcome_views, lemma_build_outcome_blocks, lemma_listing_determined, ids_collide, identity_of, lemma_built_listing_from};
use crate::decision::{
    Decision, DecisionKind, DecisionView, agrees, agree_all, all_decisions, decision_for, decision_views,
    lemma_all_decisions_unique, opt_text, skip_decision, blocks_at, slot_decisions, is_proposal_decision,
    is_skip_decision, evaluate_all, same_weights, lemma_all_decisions_congruent, lemma_all_decisions_equal,
    lemma_each_decision, supporters, certifiers,
};
use crate::equality::{ids_equal, authorities_equal, blocks_equal, decisions_equal, events_equal, report_equal, texts_equal};
use crate::lexical::{texts, str_eq, text_lt, lemma_text_lt_irreflexive};
use crate::render::{decimal, decimal_text};
use crate::safety::{honest_single_support, is_support_block, same_supporter, certified_proposals_agree, lemma_commit_has_quorum_support};
use crate::model::{id_set, id_texts, quorum_for, fault_bound_for, stake_of_set, lemma_roster_determined, lemma_stake_of_set_views};
use crate::model::{Authority, AuthorityId, Block, BlockView, Committee, CommitteeError, committee_outcome, roster_matches, authority_views, id_is_canonical};
use crate::simulator::{
    SimulationConfig, SimulationError, config_fault, validate_config, simulate, simulated_trace, named_committee,
    committee_members, copy_authorities, names_member, from_committee, sound_event, same_config, well_shaped,
    honest_supports_single, lemma_simulated_runs_agree, index_outside, dag_refusal, refused_run, lemma_same_ids_of_views,
    lemma_run_determined, WaveState, waves_history,
};
use crate::wave::{wave_rounds, wave_representable, spec_wave_rounds};

verus! {

/// Version tag of the trace schema.
pub const TRACE_SCHEMA_VERSION: &'static str = "mysticeti-twin.trace.v1";

/// The text of the schema version tag.
pub open spec fn schema_text() -> Seq<char> {
    TRACE_SCHEMA_VERSION@
}

/// Whether a broadcast reached its receiver.
#[derive(Clone, Copy, Debug, PartialEq, Eq, Structural)]
pub enum EventStatus {
    Delivered,
    Dropped,
}

/// One receiver-specific delivery of a broadcast block.
#[derive(Clone, Debug, PartialEq, Eq)]
pub struct Event {
    pub sequence: u64,
    pub scheduled_at_ms: u64,
    pub outcome_at_ms: u64,
    pub status: EventStatus,
    pub block_id: String,
    pub sender: AuthorityId,
    pub receiver: AuthorityId,
}

/// An event with texts in place of strings.
pub struct EventView {
    pub sequence: u64,
    pub scheduled_at_ms: u64,
    pub outcome_at_ms: u64,
    pub status: EventStatus,
    pub block_id: Seq<char>,
    pub sender: Seq<char>,
    pub receiver: Seq<char>,
}

impl View for Event {
    type V = EventView;

    open spec fn view(&self) -> EventView {
        EventView {
            sequence: self.sequence,
            scheduled_at_ms: self.scheduled_at_ms,
            outcome_at_ms: self.outcome_at_ms,
            status: self.status,
            block_id: self.block_id@,
            sender: self.sender@,
            receiver: self.receiver@,
        }
    }
}

/// Views of a sequence of events.
pub open spec fn event_views(es: Seq<Event>) -> Seq<EventView> {
    es.map_values(|e: Event| e@)
}

/// A named safety check and its outcome.
#[derive(Clone, Debug, PartialEq, Eq)]
pub struct InvariantCheck {
    pub name: String,
    pub passed: bool,
    pub detail: String,
}

/// A named assumption and whether the run satisfied it.
#[derive(Clone, Debug, PartialEq, Eq)]
pub struct Assumption {
    pub name: String,
    pub satisfied: bool,
    pub detail: String,
}

/// Checks and assumptions of a run.
#[derive(Clone, Debug, PartialEq, Eq)]
pub struct InvariantReport {
    pub assumptions: Vec<Assumption>,
    pub checks: Vec<InvariantCheck>,
    pub all_passed: bool,
}

/// Name, outcome and detail texts of a check or assumption.
pub type EntryView = (Seq<char>, bool, Seq<char>);

/// An invariant report with texts in place of strings.
pub struct ReportView {
    pub assumptions: Seq<EntryView>,
    pub checks: Seq<EntryView>,
    pub all_passed: bool,
}

impl View for InvariantReport {
    type V = ReportView;

    open spec fn view(&self) -> ReportView {
        ReportView {
            assumptions: self.assumptions@.map_values(|a: Assumption| (a.name@, a.satisfied, a.detail@)),
            checks: self.checks@.map_values(|c: InvariantCheck| (c.name@, c.passed, c.detail@)),
            all_passed: self.all_passed,
        }
    }
}

/// A replayable record of one simulation.
#[derive(Clone, Debug, PartialEq)]
pub struct Trace {
    pub schema_version: String,
    pub scope: String,
    pub config: SimulationConfig,
    pub seed: u64,
    pub committee: Vec<Authority>,
    pub blocks: Vec<Block>,
    pub events: Vec<Event>,
    pub decisions: Vec<Decision>,
    pub invariants: InvariantReport,
    pub evidence_labels: Vec<String>,
}

/// The I/O error of `std`.
#[verifier::external_type_specification]
#[verifier::external_body]
pub struct ExIoError(std::io::Error);

/// The error type of `serde_json`.
#[verifier::external_type_specification]
#[verifier::external_body]
pub struct ExJsonError(serde_json::Error);

/// Why a trace is rejected.
#[derive(Debug)]
pub enum VerifyError {
    Io(std::io::Error),
    Json(serde_json::Error),
    Schema(String),
    Committee(CommitteeError),
    Dag(DagError),
    DecisionMismatch,
    Invariant(String),
    Provenance(&'static str),
}

/// `ds` agree with the decisions that slots `0..n` of the DAG give; every slot's wave is representable.
pub open spec fn audit_accepts(ds: Seq<DecisionView>, c: Committee, dag: DagState, s: Seq<BlockView>, n: int) -> bool {
    &&& forall|t: u32| t < n ==> wave_representable(t)
    &&& exists|es: Seq<DecisionView>| all_decisions(es, c, dag, s, n) && #[trigger] agree_all(ds, es)
}

/// The independent audit accepts exactly what the decision rule derives: decisions that
/// are the decisions of slots `0..n` of the DAG pass the audit when every slot's wave is
/// representable.
pub proof fn audit_accepts_evaluation(ds: Seq<DecisionView>, c: Committee, dag: DagState, s: Seq<BlockView>, n: int)
    requires
        all_decisions(ds, c, dag, s, n),
        forall|t: u32| t < n ==> wave_representable(t),
    ensures
        audit_accepts(ds, c, dag, s, n),
{
    assert forall|i: int| 0 <= i < ds.len() implies agrees(#[trigger] ds[i], ds[i]) by {}
    assert(all_decisions(ds, c, dag, s, n) && agree_all(ds, ds));
}

/// Whether two decisions agree on the audited fields.
fn decision_agrees(a: &Decision, e: &Decision) -> (r: bool)
    ensures
        r == agrees(a@, e@),
{
    let same_id = match (&a.proposal_id, &e.proposal_id) {
        (Some(x), Some(y)) => *x == *y,
        (None, None) => true,
        _ => false,
    };
    a.slot == e.slot && same_id && a.proposal_round == e.proposal_round && a.kind == e.kind
        && ids_equal(a.support_authors.as_slice(), e.support_authors.as_slice())
        && ids_equal(a.certificate_authors.as_slice(), e.certificate_authors.as_slice())
        && a.support_stake == e.support_stake && a.certificate_author_stake == e.certificate_author_stake
}

proof fn lemma_agree_all_transfer(a: Seq<DecisionView>, b: Seq<DecisionView>, e: Seq<DecisionView>)
    requires
        agree_all(a, b),
        agree_all(b, e),
    ensures
        agree_all(a, e),
{
    assert forall|i: int| 0 <= i < a.len() implies agrees(#[trigger] a[i], e[i]) by {
        assert(agrees(a[i], b[i]));
        assert(agrees(b[i], e[i]));
    }
}

proof fn lemma_agree_all_symmetric(a: Seq<DecisionView>, b: Seq<DecisionView>)
    requires
        agree_all(a, b),
    ensures
        agree_all(b, a),
{
    assert forall|i: int| 0 <= i < b.len() implies agrees(#[trigger] b[i], a[i]) by {
        assert(agrees(a[i], b[i]));
    }
}

/// Independent re-derivation of the decisions of slots `0..configured_slots`, slot by
/// slot and proposal by proposal, compared with `decisions` on every evidence-bearing
/// field (decision evidence labels are not compared).
pub fn audit_decisions(committee: &Committee, dag: &Dag, decisions: &[Decision], configured_slots: u32) -> (r: bool)
    ensures
        r == audit_accepts(decision_views(decisions@), *committee, dag@, dag.listing(), configured_slots as int),
{
    let blocks = dag.blocks();
    let ghost s = dag.listing();
    let mut expected: Vec<Decision> = Vec::new();
    let mut slot: u32 = 0;
    proof {
        assert(decision_views(expected@) =~= Seq::<DecisionView>::empty());
    }
    while slot < configured_slots
        invariant
            block_views(blocks@) == s,
            s == dag.listing(),
            slot <= configured_slots,
            forall|t: u32| t < slot ==> wave_representable(t),
            all_decisions(decision_views(expected@), *committee, dag@, s, slot as int),
        decreases configured_slots - slot,
    {
        let rounds = match wave_rounds(slot) {
            Ok(r) => r,
            Err(_) => {
                proof {
                    assert(!(forall|t: u32| t < configured_slots ==> wave_representable(t))) by {
                        assert(!wave_representable(slot));
                    }
                }
                return false;
            },
        };
        let ghost before = decision_views(expected@);
        let mut found: usize = 0;
        let mut i: usize = 0;
        proof {
            assert(s.take(0) =~= Seq::<BlockView>::empty());
            assert(decision_views(expected@).subrange(before.len() as int, before.len() as int) =~= Seq::<DecisionView>::empty());
        }
        while i < blocks.len()
            invariant
                block_views(blocks@) == s,
                s == dag.listing(),
                wave_representable(slot),
                rounds == spec_wave_rounds(slot),
                i <= blocks@.len(),
                found <= i,
                decision_views(expected@).subrange(0, before.len() as int) == before,
                found == decision_views(expected@).len() - before.len(),
                found == blocks_at(s.take(i as int), slot, 3 * slot).len(),
                forall|k: int| 0 <= k < found ==> is_proposal_decision(#[trigger] decision_views(expected@)[before.len() + k], *committee, dag@, s, slot, blocks_at(s.take(i as int), slot, 3 * slot)[k].id),
            decreases blocks@.len() - i,
        {
            let b = &blocks[i];
            assert(b@ == s[i as int]);
            proof {
                assert(s.take(i as int + 1).drop_last() =~= s.take(i as int));
                assert(s.take(i as int + 1).last() == s[i as int]);
            }
            if b.slot == slot && b.round == rounds.proposal {
                let d = decision_for(committee, dag, slot, rounds, b);
                let ghost prev = expected@;
                expected.push(d);
                proof {
                    assert(decision_views(expected@) =~= decision_views(prev).push(d@));
                }
                found = found + 1;
            }
            i = i + 1;
        }
        proof {
            assert(s.take(blocks@.len() as int) =~= s);
        }
        if found == 0 {
            let d = skip_decision(slot, rounds.proposal);
            let ghost prev = expected@;
            expected.push(d);
            proof {
                assert(decision_views(expected@) =~= decision_views(prev).push(d@));
            }
        }
        proof {
            let all = decision_views(expected@);
            let tail = all.subrange(before.len() as int, all.len() as int);
            assert(all.subrange(0, before.len() as int) == before);
            assert forall|k: int| 0 <= k < tail.len() implies tail[k] == all[before.len() + k] by {}
            assert(slot_decisions(tail, *committee, dag@, s, slot));
            assert(all_decisions(all, *committee, dag@, s, slot as int + 1)) by {
                assert(all_decisions(all.subrange(0, before.len() as int), *committee, dag@, s, slot as int));
            }
        }
        slot = slot + 1;
    }
    let ghost es = decision_views(expected@);
    let ghost dv = decision_views(decisions@);
    if decisions.len() != expected.len() {
        proof {
            if exists|e2: Seq<DecisionView>| all_decisions(e2, *committee, dag@, s, configured_slots as int) && #[trigger] agree_all(dv, e2) {
                let e2 = choose|e2: Seq<DecisionView>| all_decisions(e2, *committee, dag@, s, configured_slots as int) && #[trigger] agree_all(dv, e2);
                lemma_all_decisions_unique(es, e2, *committee, dag@, s, configured_slots as int);
            }
        }
        return false;
    }
    let mut k: usize = 0;
    while k < decisions.len()
        invariant
            decisions@.len() == expected@.len(),
            es == decision_views(expected@),
            dv == decision_views(decisions@),
            s == dag.listing(),
            forall|t: u32| t < configured_slots ==> wave_representable(t),
            all_decisions(es, *committee, dag@, s, configured_slots as int),
            k <= decisions@.len(),
            forall|j: int| 0 <= j < k ==> agrees(#[trigger] dv[j], es[j]),
        decreases decisions@.len() - k,
    {
        if !decision_agrees(&decisions[k], &expected[k]) {
            proof {
                assert(!agrees(dv[k as int], es[k as int]));
                if exists|e2: Seq<DecisionView>| all_decisions(e2, *committee, dag@, s, configured_slots as int) && #[trigger] agree_all(dv, e2) {
                    let e2 = choose|e2: Seq<DecisionView>| all_decisions(e2, *committee, dag@, s, configured_slots as int) && #[trigger] agree_all(dv, e2);
                    lemma_all_decisions_unique(es, e2, *committee, dag@, s, configured_slots as int);
                    lemma_agree_all_symmetric(es, e2);
                    lemma_agree_all_transfer(dv, e2, es);
                }
            }
            return false;
        }
        k = k + 1;
    }
    proof {
        assert(agree_all(dv, es));
    }
    true
}

/// `a` and `b` name different proposals of one slot while both being commits
/// (`by_commit`) or both carrying support stake of at least `q`.
pub open spec fn conflicting(a: DecisionView, b: DecisionView, by_commit: bool, q: nat) -> bool {
    &&& if by_commit {
        a.kind == DecisionKind::Commit && b.kind == DecisionKind::Commit
    } else {
        a.support_stake >= q && b.support_stake >= q
    }
    &&& a.slot == b.slot
    &&& a.proposal_id is Some
    &&& b.proposal_id is Some
    &&& a.proposal_id != b.proposal_id
}

/// No two decisions of `ds` conflict.
pub open spec fn conflict_free(ds: Seq<DecisionView>, by_commit: bool, q: nat) -> bool {
    forall|i: int, j: int| 0 <= i < ds.len() && 0 <= j < ds.len() ==> !conflicting(#[trigger] ds[i], #[trigger] ds[j], by_commit, q)
}

/// Every commit carries certificate-author stake of at least `q`, and the evidence is valid.
pub open spec fn commits_meet_quorum(ds: Seq<DecisionView>, q: nat, evidence_valid: bool) -> bool {
    forall|i: int| 0 <= i < ds.len() && #[trigger] ds[i].kind == DecisionKind::Commit ==> ds[i].certificate_author_stake >= q && evidence_valid
}

fn decisions_conflict(a: &Decision, b: &Decision, by_commit: bool, q: u64) -> (r: bool)
    ensures
        r == conflicting(a@, b@, by_commit, q as nat),
{
    let both = if by_commit {
        a.kind == DecisionKind::Commit && b.kind == DecisionKind::Commit
    } else {
        a.support_stake >= q && b.support_stake >= q
    };
    if !both || a.slot != b.slot {
        return false;
    }
    match (&a.proposal_id, &b.proposal_id) {
        (Some(x), Some(y)) => *x != *y,
        _ => false,
    }
}

/// Whether no two decisions conflict (pairs are checked once each; the relation is symmetric).
fn no_conflicts(ds: &[Decision], by_commit: bool, q: u64) -> (r: bool)
    ensures
        r == conflict_free(decision_views(ds@), by_commit, q as nat),
{
    let ghost dv = decision_views(ds@);
    let mut i: usize = 0;
    while i < ds.len()
        invariant
            dv == decision_views(ds@),
            i <= ds@.len(),
            forall|a: int, b: int| 0 <= a < i && 0 <= b < ds@.len() ==> !conflicting(#[trigger] dv[a], #[trigger] dv[b], by_commit, q as nat),
        decreases ds@.len() - i,
    {
        let mut j: usize = i + 1;
        while j < ds.len()
            invariant
                dv == decision_views(ds@),
                i < ds@.len(),
                i + 1 <= j <= ds@.len(),
                forall|a: int, b: int| 0 <= a < i && 0 <= b < ds@.len() ==> !conflicting(#[trigger] dv[a], #[trigger] dv[b], by_commit, q as nat),
                forall|b: int| i < b < j ==> !conflicting(dv[i as int], #[trigger] dv[b], by_commit, q as nat),
            decreases ds@.len() - j,
        {
            if decisions_conflict(&ds[i], &ds[j], by_commit, q) {
                proof {
                    assert(conflicting(dv[i as int], dv[j as int], by_commit, q as nat));
                }
                return false;
            }
            j = j + 1;
        }
        proof {
            assert forall|a: int, b: int| 0 <= a < i + 1 && 0 <= b < ds@.len() implies !conflicting(#[trigger] dv[a], #[trigger] dv[b], by_commit, q as nat) by {
                if a == i {
                    if b < i {
                        assert(!conflicting(dv[b], dv[a], by_commit, q as nat));
                    }
                }
            }
        }
        i = i + 1;
    }
    true
}

fn commits_with_quorum(ds: &[Decision], q: u64, evidence_valid: bool) -> (r: bool)
    ensures
        r == commits_meet_quorum(decision_views(ds@), q as nat, evidence_valid),
{
    let ghost dv = decision_views(ds@);
    let mut i: usize = 0;
    while i < ds.len()
        invariant
            dv == decision_views(ds@),
            i <= ds@.len(),
            forall|k: int| 0 <= k < i && #[trigger] dv[k].kind == DecisionKind::Commit ==> dv[k].certificate_author_stake >= q && evidence_valid,
        decreases ds@.len() - i,
    {
        if ds[i].kind == DecisionKind::Commit && !(ds[i].certificate_author_stake >= q && evidence_valid) {
            proof {
                assert(dv[i as int].kind == DecisionKind::Commit);
            }
            return false;
        }
        i = i + 1;
    }
    true
}

/// Name of the authority with committee index `i`.
pub closed spec fn authority_name(i: nat) -> Seq<char> {
    "authority-"@ + decimal_text(i)
}

/// The text of an authority name.
pub proof fn lemma_authority_name(i: nat)
    ensures
        authority_name(i) == "authority-"@ + decimal_text(i),
{
}

/// Names of the authorities with the indices in `idx`.
pub open spec fn named_set(idx: Seq<u32>) -> Set<Seq<char>> {
    Set::new(|a: Seq<char>| exists|k: int| 0 <= k < idx.len() && a == authority_name(#[trigger] idx[k] as nat))
}

/// The name of the authority with index `i`.
pub fn authority_name_of(i: u64) -> (r: String)
    ensures
        r@ == authority_name(i as nat),
{
    let mut r = String::from_str("authority-");
    r.append(decimal(i).as_str());
    r
}

/// Ids of the authorities with the indices in `idx`.
fn named_ids(idx: &[u32]) -> (r: Vec<AuthorityId>)
    ensures
        id_set(r@) == named_set(idx@),
{
    let mut r: Vec<AuthorityId> = Vec::new();
    let mut k: usize = 0;
    while k < idx.len()
        invariant
            k <= idx@.len(),
            id_set(r@) == named_set(idx@.take(k as int)),
        decreases idx@.len() - k,
    {
        let a = AuthorityId(authority_name_of(idx[k] as u64));
        let ghost before = r@;
        r.push(a);
        proof {
            assert(id_texts(r@) =~= id_texts(before).push(a@));
            id_texts(before).lemma_push_to_set_commute(a@);
            let t0 = idx@.take(k as int);
            let t1 = idx@.take(k as int + 1);
            assert forall|x: Seq<char>| named_set(t1).contains(x) <==> named_set(t0).insert(a@).contains(x) by {
                if named_set(t1).contains(x) {
                    let j = choose|j: int| 0 <= j < t1.len() && x == authority_name(#[trigger] t1[j] as nat);
                    if j < k {
                        assert(t0[j] == t1[j]);
                    }
                }
                if named_set(t0).contains(x) {
                    let j = choose|j: int| 0 <= j < t0.len() && x == authority_name(#[trigger] t0[j] as nat);
                    assert(t0[j] == t1[j]);
                }
                if x == a@ {
                    assert(t1[k as int] == idx@[k as int]);
                }
            }
            assert(named_set(t1) =~= named_set(t0).insert(a@));
        }
        k = k + 1;
    }
    proof {
        assert(idx@.take(idx@.len() as int) =~= idx@);
    }
    r
}

/// Whether `b` is in the support round of its (representable) wave.
fn is_support(b: &Block) -> (r: bool)
    ensures
        r == is_support_block(b@),
{
    match wave_rounds(b.slot) {
        Ok(rounds) => b.round == rounds.support,
        Err(_) => false,
    }
}

/// Whether authors outside `z` have at most one support block per slot in the DAG.
fn single_support_holds(dag: &Dag, z: &[AuthorityId]) -> (r: bool)
    ensures
        r == honest_single_support(dag.listing(), id_set(z@)),
{
    let blocks = dag.blocks();
    let ghost s = dag.listing();
    let ghost zs = id_set(z@);
    let mut i: usize = 0;
    while i < blocks.len()
        invariant
            block_views(blocks@) == s,
            s == dag.listing(),
            zs == id_set(z@),
            i <= blocks@.len(),
            forall|a: int, b: int| 0 <= a < i && 0 <= b < s.len() && same_supporter(#[trigger] s[a], #[trigger] s[b], zs) ==> a == b,
        decreases blocks@.len() - i,
    {
        let x = &blocks[i];
        assert(x@ == s[i as int]);
        let mut j: usize = i + 1;
        while j < blocks.len()
            invariant
                block_views(blocks@) == s,
                s == dag.listing(),
                zs == id_set(z@),
                x@ == s[i as int],
                i < blocks@.len(),
                i + 1 <= j <= blocks@.len(),
                forall|a: int, b: int| 0 <= a < i && 0 <= b < s.len() && same_supporter(#[trigger] s[a], #[trigger] s[b], zs) ==> a == b,
                forall|b: int| i < b < j ==> !same_supporter(s[i as int], #[trigger] s[b], zs),
            decreases blocks@.len() - j,
        {
            let y = &blocks[j];
            assert(y@ == s[j as int]);
            if is_support(x) && is_support(y) && x.slot == y.slot && x.author.0 == y.author.0
                && !crate::model::contains_id(z, &x.author.0) {
                proof {
                    assert(same_supporter(s[i as int], s[j as int], zs));
                }
                return false;
            }
            j = j + 1;
        }
        proof {
            assert forall|a: int, b: int| 0 <= a < i + 1 && 0 <= b < s.len() && same_supporter(#[trigger] s[a], #[trigger] s[b], zs) implies a == b by {
                if a == i && b < i {
                    assert(same_supporter(s[b], s[a], zs));
                }
            }
        }
        i = i + 1;
    }
    true
}

/// The invariant report of a run over committee `c` and the DAG `dag` listed as `s`,
/// with decisions `ds`, `slots` configured slots and Byzantine indices `byz`.
pub open spec fn report_for(c: Committee, dag: DagState, s: Seq<BlockView>, ds: Seq<DecisionView>, slots: u32, byz: Seq<u32>) -> ReportView {
    let q = quorum_for(c.total());
    let evidence = audit_accepts(ds, c, dag, s, slots as int);
    let z = named_set(byz);
    let z_stake = stake_of_set(c.roster(), z);
    let certified_ok = conflict_free(ds, false, q);
    let commits_ok = conflict_free(ds, true, q);
    let quorum_ok = commits_meet_quorum(ds, q, evidence);
    let honest = honest_single_support(s, z);
    let byzantine_safe = z_stake <= fault_bound_for(c.total());
    ReportView {
        assumptions: seq![
            ("honest_single_support"@, honest, "generated honest authorities have at most one support block per slot"@),
            ("byzantine_stake_below_one_third"@, byzantine_safe,
                "configured_byzantine_stake="@ + decimal_text(z_stake) + ", total_stake="@ + decimal_text(c.total())),
            ("educational_skip_scope"@, true, "skip does not model production indirect decisions"@),
        ],
        checks: seq![
            ("no_conflicting_certified_proposals"@, certified_ok, "under honest single-support assumption"@),
            ("no_conflicting_direct_commits"@, commits_ok, "at most one committed proposal per slot"@),
            ("commit_has_certificate_author_quorum"@, quorum_ok, "threshold="@ + decimal_text(q)),
            ("equivocation_stake_deduplicated"@, evidence, "explicit author lists are sorted, unique, and stake sums recompute"@),
            ("dag_validity"@, true, "full Dag::build validation succeeded"@),
        ],
        all_passed: certified_ok && commits_ok && quorum_ok && evidence && honest && byzantine_safe,
    }
}

/// Recomputes the safety checks and assumptions of a run.
pub fn invariant_report(committee: &Committee, dag: &Dag, decisions: &[Decision], config: &SimulationConfig) -> (r: InvariantReport)
    ensures
        r@ == report_for(*committee, dag@, dag.listing(), decision_views(decisions@), config.slots, config.byzantine_authorities@),
{
    let q = committee.quorum_threshold();
    let evidence_valid = audit_decisions(committee, dag, decisions, config.slots);
    let no_conflicting_commits = no_conflicts(decisions, true, q);
    let commit_quorum = commits_with_quorum(decisions, q, evidence_valid);
    let no_conflicting_certificates = no_conflicts(decisions, false, q);
    let byzantine_ids = named_ids(config.byzantine_authorities.as_slice());
    let byzantine_stake = committee.distinct_stake(byzantine_ids.as_slice());
    let byzantine_safe = byzantine_stake <= committee.byzantine_safety_bound();
    let honest_single_support = single_support_holds(dag, byzantine_ids.as_slice());
    let mut threshold_detail = String::from_str("threshold=");
    threshold_detail.append(decimal(q).as_str());
    let mut checks: Vec<InvariantCheck> = Vec::new();
    checks.push(InvariantCheck {
        name: String::from_str("no_conflicting_certified_proposals"),
        passed: no_conflicting_certificates,
        detail: String::from_str("under honest single-support assumption"),
    });
    checks.push(InvariantCheck {
        name: String::from_str("no_conflicting_direct_commits"),
        passed: no_conflicting_commits,
        detail: String::from_str("at most one committed proposal per slot"),
    });
    checks.push(InvariantCheck {
        name: String::from_str("commit_has_certificate_author_quorum"),
        passed: commit_quorum,
        detail: threshold_detail,
    });
    checks.push(InvariantCheck {
        name: String::from_str("equivocation_stake_deduplicated"),
        passed: evidence_valid,
        detail: String::from_str("explicit author lists are sorted, unique, and stake sums recompute"),
    });
    checks.push(InvariantCheck {
        name: String::from_str("dag_validity"),
        passed: true,
        detail: String::from_str("full Dag::build validation succeeded"),
    });
    let mut stake_detail = String::from_str("configured_byzantine_stake=");
    stake_detail.append(decimal(byzantine_stake).as_str());
    stake_detail.append(", total_stake=");
    stake_detail.append(decimal(committee.total_stake()).as_str());
    let mut assumptions: Vec<Assumption> = Vec::new();
    assumptions.push(Assumption {
        name: String::from_str("honest_single_support"),
        satisfied: honest_single_support,
        detail: String::from_str("generated honest authorities have at most one support block per slot"),
    });
    assumptions.push(Assumption {
        name: String::from_str("byzantine_stake_below_one_third"),
        satisfied: byzantine_safe,
        detail: stake_detail,
    });
    assumptions.push(Assumption {
        name: String::from_str("educational_skip_scope"),
        satisfied: true,
        detail: String::from_str("skip does not model production indirect decisions"),
    });
    let all_passed = no_conflicting_certificates && no_conflicting_commits && commit_quorum && evidence_valid
        && honest_single_support && byzantine_safe;
    let r = InvariantReport { assumptions, checks, all_passed };
    proof {
        let expected = report_for(*committee, dag@, dag.listing(), decision_views(decisions@), config.slots, config.byzantine_authorities@);
        assert(r@.checks =~= expected.checks);
        assert(r@.assumptions =~= expected.assumptions);
    }
    r
}

/// `c` is the committee that the authorities `auths` form.
pub open spec fn forms_committee(auths: Seq<Authority>, c: Committee) -> bool {
    &&& committee_outcome(authority_views(auths)) is Ok
    &&& roster_matches(c.roster(), committee_outcome(authority_views(auths))->Ok_0.0)
    &&& c.total() == committee_outcome(authority_views(auths))->Ok_0.1
}

/// Replaying `t` with committee `c` and DAG `d` reproduces its decisions and report:
/// `c` is formed from the recorded committee, `d` is built from the recorded blocks,
/// and the recorded decisions and invariant report are those that `c` and `d` give.
pub open spec fn replayed(t: Trace, c: Committee, d: Dag) -> bool {
    &&& c.valid()
    &&& d.valid()
    &&& forms_committee(t.committee@, c)
    &&& build_outcome(c.roster(), t.blocks@) == Ok::<DagState, DagFault>(d@)
    &&& all_decisions(decision_views(t.decisions@), c, d@, d.listing(), t.config.slots as int)
    &&& t.invariants@ == report_for(c, d@, d.listing(), decision_views(t.decisions@), t.config.slots, t.config.byzantine_authorities@)
}

/// `x` is the id text of a member of `auths`.
pub open spec fn member_named(auths: Seq<Authority>, x: Seq<char>) -> bool {
    exists|i: int| 0 <= i < auths.len() && auths[i].id@ == x
}

/// The author of the last block of `blocks` recorded under `id`, if any.
pub open spec fn last_author(blocks: Seq<BlockView>, id: Seq<char>) -> Option<Seq<char>>
    decreases blocks.len(),
{
    if blocks.len() == 0 {
        None
    } else if blocks.last().id == id {
        Some(blocks.last().author)
    } else {
        last_author(blocks.drop_last(), id)
    }
}

/// Event `i` of `t` is numbered `i`, completes no earlier than it was scheduled nor than
/// its predecessor, runs between committee members, and carries a block whose last
/// record under its id was authored by the sender.
pub open spec fn event_ok(t: Trace, i: int) -> bool {
    let e = t.events@[i];
    &&& e.sequence == i
    &&& e.scheduled_at_ms <= e.outcome_at_ms
    &&& i > 0 ==> t.events@[i - 1].outcome_at_ms <= e.outcome_at_ms
    &&& member_named(t.committee@, e.sender@)
    &&& member_named(t.committee@, e.receiver@)
    &&& last_author(block_views(t.blocks@), e.block_id@) == Some(e.sender@)
}

/// Every event of `t` is well formed.
pub open spec fn events_valid(t: Trace) -> bool {
    forall|i: int| 0 <= i < t.events@.len() ==> #[trigger] event_ok(t, i)
}

/// The first `stage` checks of trace verification pass: the schema tag, the seed, the
/// configuration, the committee, the configured stakes, and the events, in that order.
pub open spec fn passes_through(t: Trace, stage: nat) -> bool {
    &&& stage >= 1 ==> t.schema_version@ == schema_text()
    &&& stage >= 2 ==> t.seed == t.config.seed
    &&& stage >= 3 ==> config_fault(t.config) is None
    &&& stage >= 4 ==> committee_outcome(authority_views(t.committee@)) is Ok
    &&& stage >= 5 ==> authority_views(t.committee@) == named_committee(t.config.stakes@)
    &&& stage >= 6 ==> events_valid(t)
}

/// `c` is formed from the recorded committee of `t` and `d` is built from its blocks.
pub open spec fn replay_state(t: Trace, c: Committee, d: Dag) -> bool {
    &&& c.valid()
    &&& d.valid()
    &&& forms_committee(t.committee@, c)
    &&& build_outcome(c.roster(), t.blocks@) == Ok::<DagState, DagFault>(d@)
}

/// The report's verdict is positive and every assumption is satisfied.
pub open spec fn report_passes(r: ReportView) -> bool {
    &&& r.all_passed
    &&& forall|i: int| 0 <= i < r.assumptions.len() ==> #[trigger] r.assumptions[i].1
}

/// What verification answers once `t` has been replayed on `c` and `d`: a decision
/// mismatch, failed recomputed checks, a differing recorded report, or else acceptance
/// or a difference from the regenerated run.
pub open spec fn replay_verdict(t: Trace, c: Committee, d: Dag, res: Result<Vec<Decision>, VerifyError>) -> bool {
    let ds = decision_views(t.decisions@);
    let r = report_for(c, d@, d.listing(), ds, t.config.slots, t.config.byzantine_authorities@);
    if !all_decisions(ds, c, d@, d.listing(), t.config.slots as int) {
        res matches Err(VerifyError::DecisionMismatch)
    } else if !report_passes(r) {
        res matches Err(VerifyError::Invariant(m)) && m@ == "recomputed safety checks failed"@
    } else if t.invariants@ != r {
        res matches Err(VerifyError::Invariant(m)) && m@ == "recorded invariant report differs from replay"@
    } else {
        res is Ok || res matches Err(VerifyError::Provenance(_))
    }
}

/// The first part of `t` that differs from the regenerated trace `g`, in the order
/// committee, blocks, events, decisions, scope, labels, invariant report.
pub open spec fn first_difference(g: Trace, t: Trace) -> Option<Seq<char>> {
    if authority_views(g.committee@) != authority_views(t.committee@) {
        Some("committee"@)
    } else if block_views(g.blocks@) != block_views(t.blocks@) {
        Some("blocks"@)
    } else if event_views(g.events@) != event_views(t.events@) {
        Some("events"@)
    } else if decision_views(g.decisions@) != decision_views(t.decisions@) {
        Some("decisions"@)
    } else if g.scope@ != t.scope@ {
        Some("scope"@)
    } else if texts(g.evidence_labels@) != texts(t.evidence_labels@) {
        Some("labels"@)
    } else if g.invariants@ != t.invariants@ {
        Some("invariants"@)
    } else {
        None
    }
}

/// Reports with equal weights audit alike.
proof fn lemma_audit_congruent(ds: Seq<DecisionView>, c1: Committee, c2: Committee, dag: DagState, s: Seq<BlockView>, n: int)
    requires
        same_weights(c1, c2),
    ensures
        audit_accepts(ds, c1, dag, s, n) == audit_accepts(ds, c2, dag, s, n),
{
    if audit_accepts(ds, c1, dag, s, n) {
        let es = choose|es: Seq<DecisionView>| all_decisions(es, c1, dag, s, n) && #[trigger] agree_all(ds, es);
        lemma_all_decisions_congruent(es, c1, c2, dag, s, n);
        assert(all_decisions(es, c2, dag, s, n) && agree_all(ds, es));
    }
    if audit_accepts(ds, c2, dag, s, n) {
        let es = choose|es: Seq<DecisionView>| all_decisions(es, c2, dag, s, n) && #[trigger] agree_all(ds, es);
        lemma_all_decisions_congruent(es, c2, c1, dag, s, n);
        assert(all_decisions(es, c1, dag, s, n) && agree_all(ds, es));
    }
}

/// Two replays of one trace decide and report alike.
proof fn lemma_replay_determined(t: Trace, c: Committee, d: Dag, c2: Committee, d2: Dag, res: Result<Vec<Decision>, VerifyError>)
    requires
        replay_state(t, c, d),
        replay_state(t, c2, d2),
        replay_verdict(t, c, d, res),
    ensures
        replay_verdict(t, c2, d2, res),
{
    let m = committee_outcome(authority_views(t.committee@))->Ok_0.0;
    lemma_roster_determined(c, c2, m);
    lemma_build_outcome_views(c.roster(), c2.roster(), t.blocks@);
    lemma_listing_determined(d, d2);
    let ds = decision_views(t.decisions@);
    let n = t.config.slots as int;
    if all_decisions(ds, c, d@, d.listing(), n) {
        lemma_all_decisions_congruent(ds, c, c2, d@, d.listing(), n);
    }
    if all_decisions(ds, c2, d@, d.listing(), n) {
        lemma_all_decisions_congruent(ds, c2, c, d@, d.listing(), n);
    }
    lemma_audit_congruent(ds, c, c2, d@, d.listing(), n);
    let z = named_set(t.config.byzantine_authorities@);
    lemma_stake_of_set_views(c.roster(), c2.roster(), z);
    assert(report_for(c, d@, d.listing(), ds, t.config.slots, t.config.byzantine_authorities@)
        == report_for(c2, d2@, d2.listing(), ds, t.config.slots, t.config.byzantine_authorities@));
}

/// Whether `id` names a member of `auths`.
fn names_member_of(auths: &[Authority], id: &AuthorityId) -> (r: bool)
    ensures
        r == member_named(auths@, id@),
{
    let mut i: usize = 0;
    while i < auths.len()
        invariant
            i <= auths@.len(),
            forall|k: int| 0 <= k < i ==> auths@[k].id@ != id@,
        decreases auths@.len() - i,
    {
        if auths[i].id.0 == id.0 {
            return true;
        }
        i = i + 1;
    }
    false
}

/// Whether the last block recorded under `id` was authored by `sender`.
fn recorded_author_is(blocks: &[Block], id: &String, sender: &AuthorityId) -> (r: bool)
    ensures
        r == (last_author(block_views(blocks@), id@) == Some(sender@)),
{
    let mut i: usize = blocks.len();
    proof {
        assert(blocks@.take(blocks@.len() as int) =~= blocks@);
    }
    while i > 0
        invariant
            i <= blocks@.len(),
            last_author(block_views(blocks@), id@) == last_author(block_views(blocks@.take(i as int)), id@),
        decreases i,
    {
        i = i - 1;
        proof {
            let prefix = block_views(blocks@.take(i + 1));
            assert(prefix.last() == blocks@[i as int]@);
            assert(prefix.drop_last() =~= block_views(blocks@.take(i as int)));
        }
        if blocks[i].id == *id {
            return blocks[i].author.0 == sender.0;
        }
    }
    proof {
        assert(block_views(blocks@.take(0)).len() == 0);
    }
    false
}

/// Whether every event of `trace` is well formed.
fn events_well_formed(trace: &Trace) -> (r: bool)
    ensures
        r == events_valid(*trace),
{
    let mut i: usize = 0;
    while i < trace.events.len()
        invariant
            i <= trace.events@.len(),
            forall|k: int| 0 <= k < i ==> #[trigger] event_ok(*trace, k),
        decreases trace.events@.len() - i,
    {
        let e = &trace.events[i];
        let in_order = i == 0 || trace.events[i - 1].outcome_at_ms <= e.outcome_at_ms;
        if e.sequence != i as u64 || e.outcome_at_ms < e.scheduled_at_ms || !in_order
            || !names_member_of(trace.committee.as_slice(), &e.sender)
            || !names_member_of(trace.committee.as_slice(), &e.receiver)
            || !recorded_author_is(trace.blocks.as_slice(), &e.block_id, &e.sender)
        {
            proof {
                assert(!event_ok(*trace, i as int));
            }
            return false;
        }
        proof {
            assert(event_ok(*trace, i as int));
        }
        i = i + 1;
    }
    true
}

/// Whether every assumption of a report is satisfied.
fn all_satisfied(a: &[Assumption]) -> (r: bool)
    ensures
        r == forall|i: int| 0 <= i < a@.len() ==> #[trigger] a@[i].satisfied,
{
    let mut i: usize = 0;
    while i < a.len()
        invariant
            i <= a@.len(),
            forall|k: int| 0 <= k < i ==> #[trigger] a@[k].satisfied,
        decreases a@.len() - i,
    {
        if !a[i].satisfied {
            return false;
        }
        i = i + 1;
    }
    true
}

/// The first part of `trace` that differs from the regenerated trace `generated`.
fn first_difference_of(generated: &Trace, trace: &Trace) -> (r: Option<&'static str>)
    ensures
        match r {
            Some(p) => first_difference(*generated, *trace) == Some(p@),
            None => first_difference(*generated, *trace) is None,
        },
{
    if !authorities_equal(generated.committee.as_slice(), trace.committee.as_slice()) {
        return Some("committee");
    }
    if !blocks_equal(generated.blocks.as_slice(), trace.blocks.as_slice()) {
        return Some("blocks");
    }
    if !events_equal(generated.events.as_slice(), trace.events.as_slice()) {
        return Some("events");
    }
    if !decisions_equal(generated.decisions.as_slice(), trace.decisions.as_slice()) {
        return Some("decisions");
    }
    if generated.scope != trace.scope {
        return Some("scope");
    }
    if !texts_equal(generated.evidence_labels.as_slice(), trace.evidence_labels.as_slice()) {
        return Some("labels");
    }
    if !report_equal(&generated.invariants, &trace.invariants) {
        return Some("invariants");
    }
    None
}

/// The replay half of trace verification: decisions, recomputed report, recorded
/// report, then the comparison with the run regenerated from the configuration.
fn replay_against(trace: &Trace, committee: &Committee, dag: &Dag) -> (res: Result<Vec<Decision>, VerifyError>)
    requires
        passes_through(*trace, 6),
        replay_state(*trace, *committee, *dag),
    ensures
        replay_verdict(*trace, *committee, *dag, res),
        res matches Ok(ds) ==> decision_views(ds@) == decision_views(trace.decisions@)
            && replayed(*trace, *committee, *dag) && report_passes(trace.invariants@)
            && exists|g: Trace| simulated_trace(g, trace.config) && first_difference(g, *trace) is None,
        res matches Err(VerifyError::Provenance(p)) ==> replayed(*trace, *committee, *dag) && report_passes(trace.invariants@)
            && (p@ == "simulation failed"@ || exists|g: Trace| simulated_trace(g, trace.config) && first_difference(g, *trace) == Some(p@)),
        res matches Err(VerifyError::Provenance(p)) && p@ == "simulation failed"@
            ==> index_outside(trace.config.crash_authorities@, trace.config.stakes@.len())
                || index_outside(trace.config.byzantine_authorities@, trace.config.stakes@.len())
                || exists|f: DagFault| dag_refusal(trace.config, f),
{
    let ghost ds = decision_views(trace.decisions@);
    let decisions = match evaluate_all(committee, dag, trace.config.slots) {
        Ok(ds) => ds,
        Err(e) => return Err(VerifyError::Invariant(e.message())),
    };
    if !decisions_equal(decisions.as_slice(), trace.decisions.as_slice()) {
        proof {
            if all_decisions(ds, *committee, dag@, dag.listing(), trace.config.slots as int) {
                lemma_all_decisions_equal(decision_views(decisions@), ds, *committee, dag@, dag.listing(), trace.config.slots as int);
            }
        }
        return Err(VerifyError::DecisionMismatch);
    }
    let report = invariant_report(committee, dag, decisions.as_slice(), &trace.config);
    if !report.all_passed || !all_satisfied(report.assumptions.as_slice()) {
        proof {
            if report_passes(report@) {
                let k = choose|k: int| 0 <= k < report.assumptions@.len() && !#[trigger] report.assumptions@[k].satisfied;
                assert(report@.assumptions[k].1 == report.assumptions@[k].satisfied);
            }
        }
        return Err(VerifyError::Invariant(String::from_str("recomputed safety checks failed")));
    }
    proof {
        assert forall|i: int| 0 <= i < report@.assumptions.len() implies #[trigger] report@.assumptions[i].1 by {
            assert(report@.assumptions[i].1 == report.assumptions@[i].satisfied);
        }
    }
    if !report_equal(&report, &trace.invariants) {
        return Err(VerifyError::Invariant(String::from_str("recorded invariant report differs from replay")));
    }
    proof {
        assert(committee_outcome(named_committee(trace.config.stakes@)) is Ok);
    }
    let generated = match simulate(&trace.config) {
        Ok(g) => g,
        Err(e) => {
            proof {
                reveal_strlit("simulation failed");
                match e {
                    SimulationError::Dag(f) => {
                        assert(dag_refusal(trace.config, f@));
                    },
                    _ => {},
                }
            }
            return Err(VerifyError::Provenance("simulation failed"));
        },
    };
    match first_difference_of(&generated, trace) {
        Some(p) => {
            proof {
                reveal_strlit("simulation failed");
                reveal_strlit("committee");
                reveal_strlit("blocks");
                reveal_strlit("events");
                reveal_strlit("decisions");
                reveal_strlit("scope");
                reveal_strlit("labels");
                reveal_strlit("invariants");
                assert(first_difference(generated, *trace) == Some(p@));
                assert(p@ == "committee"@ || p@ == "blocks"@ || p@ == "events"@ || p@ == "decisions"@
                    || p@ == "scope"@ || p@ == "labels"@ || p@ == "invariants"@);
                assert(p@.len() != "simulation failed"@.len());
            }
            return Err(VerifyError::Provenance(p));
        },
        None => {},
    }
    Ok(decisions)
}

/// The checks of `verify_trace`, in order.
fn check_trace(trace: &Trace) -> (res: Result<Vec<Decision>, VerifyError>)
    ensures
        !passes_through(*trace, 1) ==> (res matches Err(VerifyError::Schema(s)) && s@ == trace.schema_version@),
        passes_through(*trace, 1) && !passes_through(*trace, 2)
            ==> (res matches Err(VerifyError::Invariant(m)) && m@ == "top-level seed differs from config seed"@),
        passes_through(*trace, 2) ==> (config_fault(trace.config) matches Some(f)
            ==> (res matches Err(VerifyError::Invariant(m)) && m@ == "invalid simulation configuration: "@ + f)),
        passes_through(*trace, 3) ==> (committee_outcome(authority_views(trace.committee@)) matches Err(f)
            ==> (res matches Err(VerifyError::Committee(e)) && e@ == f)),
        passes_through(*trace, 4) && !passes_through(*trace, 5)
            ==> (res matches Err(VerifyError::Invariant(m)) && m@ == "config stakes differ from committee"@),
        passes_through(*trace, 5) && !passes_through(*trace, 6)
            ==> (res matches Err(VerifyError::Invariant(m)) && m@ == "invalid event reference, ordering, or fields"@),
        passes_through(*trace, 6) ==> forall|c: Committee| c.valid() && #[trigger] forms_committee(trace.committee@, c)
            ==> (build_outcome(c.roster(), trace.blocks@) matches Err(f) ==> (res matches Err(VerifyError::Dag(e)) && e@ == f)),
        passes_through(*trace, 6) ==> forall|c: Committee, d: Dag| #[trigger] replay_state(*trace, c, d) ==> replay_verdict(*trace, c, d, res),
        res matches Ok(ds) ==> passes_through(*trace, 6) && decision_views(ds@) == decision_views(trace.decisions@)
            && (exists|c: Committee, d: Dag| replayed(*trace, c, d) && report_passes(trace.invariants@))
            && exists|g: Trace| simulated_trace(g, trace.config) && first_difference(g, *trace) is None,
        res matches Err(VerifyError::Provenance(p)) ==> passes_through(*trace, 6)
            && (exists|c: Committee, d: Dag| replayed(*trace, c, d) && report_passes(trace.invariants@))
            && (p@ == "simulation failed"@ || exists|g: Trace| simulated_trace(g, trace.config) && first_difference(g, *trace) == Some(p@)),
        res matches Err(VerifyError::Provenance(p)) && p@ == "simulation failed"@
            ==> index_outside(trace.config.crash_authorities@, trace.config.stakes@.len())
                || index_outside(trace.config.byzantine_authorities@, trace.config.stakes@.len())
                || exists|f: DagFault| dag_refusal(trace.config, f),
{
    if !str_eq(trace.schema_version.as_str(), TRACE_SCHEMA_VERSION) {
        return Err(VerifyError::Schema(trace.schema_version.clone()));
    }
    if trace.seed != trace.config.seed {
        return Err(VerifyError::Invariant(String::from_str("top-level seed differs from config seed")));
    }
    match validate_config(&trace.config) {
        Ok(()) => {},
        Err(e) => {
            let mut message = String::from_str("invalid simulation configuration: ");
            match e {
                SimulationError::Config(m) => message.append(m.as_str()),
                _ => {},
            }
            return Err(VerifyError::Invariant(message));
        },
    }
    let committee = match Committee::new(copy_authorities(trace.committee.as_slice())) {
        Ok(c) => c,
        Err(e) => return Err(VerifyError::Committee(e)),
    };
    let expected = committee_members(trace.config.stakes.as_slice());
    if !authorities_equal(trace.committee.as_slice(), expected.as_slice()) {
        return Err(VerifyError::Invariant(String::from_str("config stakes differ from committee")));
    }
    if !events_well_formed(trace) {
        return Err(VerifyError::Invariant(String::from_str("invalid event reference, ordering, or fields")));
    }
    proof {
        use_type_invariant(&committee);
        let m = committee_outcome(authority_views(trace.committee@))->Ok_0.0;
        assert forall|c: Committee| c.valid() && #[trigger] forms_committee(trace.committee@, c)
            implies build_outcome(c.roster(), trace.blocks@) == build_outcome(committee.roster(), trace.blocks@) by {
            lemma_roster_determined(committee, c, m);
            lemma_build_outcome_views(committee.roster(), c.roster(), trace.blocks@);
        }
    }
    let dag = match Dag::build(&committee, trace.blocks.as_slice()) {
        Ok(d) => d,
        Err(e) => return Err(VerifyError::Dag(e)),
    };
    proof {
        use_type_invariant(&dag);
    }
    let res = replay_against(trace, &committee, &dag);
    proof {
        assert forall|c: Committee, d: Dag| #[trigger] replay_state(*trace, c, d) implies replay_verdict(*trace, c, d, res) by {
            lemma_replay_determined(*trace, committee, dag, c, d, res);
        }
        assert(replay_state(*trace, committee, dag));
    }
    res
}

/// Checks a recorded trace: its schema, seed, configuration, committee and events;
/// then replays its DAG, decisions and invariant report; then regenerates the run from
/// its configuration and compares. Returns the replayed decisions. A trace that the
/// simulator produced, with a passing report, is accepted unless two of its blocks of
/// different identities share a SHA-256 id.
pub fn verify_trace(trace: &Trace) -> (res: Result<Vec<Decision>, VerifyError>)
    ensures
        !passes_through(*trace, 1) ==> (res matches Err(VerifyError::Schema(s)) && s@ == trace.schema_version@),
        passes_through(*trace, 1) && !passes_through(*trace, 2)
            ==> (res matches Err(VerifyError::Invariant(m)) && m@ == "top-level seed differs from config seed"@),
        passes_through(*trace, 2) ==> (config_fault(trace.config) matches Some(f)
            ==> (res matches Err(VerifyError::Invariant(m)) && m@ == "invalid simulation configuration: "@ + f)),
        passes_through(*trace, 3) ==> (committee_outcome(authority_views(trace.committee@)) matches Err(f)
            ==> (res matches Err(VerifyError::Committee(e)) && e@ == f)),
        passes_through(*trace, 4) && !passes_through(*trace, 5)
            ==> (res matches Err(VerifyError::Invariant(m)) && m@ == "config stakes differ from committee"@),
        passes_through(*trace, 5) && !passes_through(*trace, 6)
            ==> (res matches Err(VerifyError::Invariant(m)) && m@ == "invalid event reference, ordering, or fields"@),
        passes_through(*trace, 6) ==> forall|c: Committee| c.valid() && #[trigger] forms_committee(trace.committee@, c)
            ==> (build_outcome(c.roster(), trace.blocks@) matches Err(f) ==> (res matches Err(VerifyError::Dag(e)) && e@ == f)),
        passes_through(*trace, 6) ==> forall|c: Committee, d: Dag| #[trigger] replay_state(*trace, c, d) ==> replay_verdict(*trace, c, d, res),
        res matches Ok(ds) ==> passes_through(*trace, 6) && decision_views(ds@) == decision_views(trace.decisions@)
            && (exists|c: Committee, d: Dag| replayed(*trace, c, d) && report_passes(trace.invariants@))
            && exists|g: Trace| simulated_trace(g, trace.config) && first_difference(g, *trace) is None,
        res matches Err(VerifyError::Provenance(p)) ==> passes_through(*trace, 6)
            && (exists|c: Committee, d: Dag| replayed(*trace, c, d) && report_passes(trace.invariants@))
            && (p@ == "simulation failed"@ || exists|g: Trace| simulated_trace(g, trace.config) && first_difference(g, *trace) == Some(p@)),
        res matches Err(VerifyError::Provenance(p)) && p@ == "simulation failed"@
            ==> index_outside(trace.config.crash_authorities@, trace.config.stakes@.len())
                || index_outside(trace.config.byzantine_authorities@, trace.config.stakes@.len())
                || exists|f: DagFault| dag_refusal(trace.config, f),
        simulated_trace(*trace, trace.config) && report_passes(trace.invariants@) && !ids_collide(block_views(trace.blocks@))
            ==> res is Ok,
{
    let res = check_trace(trace);
    proof {
        if simulated_trace(*trace, trace.config) && report_passes(trace.invariants@) && !ids_collide(block_views(trace.blocks@)) {
            lemma_simulated_trace_accepted(*trace, res);
        }
    }
    res
}

/// A trace that the simulator produced, with a passing report and no two of its blocks
/// of different identities sharing an id, gets
/// every verdict but acceptance ruled out by what its checks state.
proof fn lemma_simulated_trace_accepted(t: Trace, res: Result<Vec<Decision>, VerifyError>)
    requires
        simulated_trace(t, t.config),
        report_passes(t.invariants@),
        !ids_collide(block_views(t.blocks@)),
        passes_through(t, 6) ==> forall|c: Committee, d: Dag| #[trigger] replay_state(t, c, d) ==> replay_verdict(t, c, d, res),
        res matches Err(VerifyError::Provenance(p)) ==> (p@ == "simulation failed"@
            || exists|g: Trace| simulated_trace(g, t.config) && first_difference(g, t) == Some(p@)),
        res matches Err(VerifyError::Provenance(p)) && p@ == "simulation failed"@
            ==> index_outside(t.config.crash_authorities@, t.config.stakes@.len())
                || index_outside(t.config.byzantine_authorities@, t.config.stakes@.len())
                || exists|f: DagFault| dag_refusal(t.config, f),
    ensures
        res is Ok,
{
    simulated_traces_replay(t, t.config);
    if exists|f: DagFault| dag_refusal(t.config, f) {
        let f = choose|f: DagFault| dag_refusal(t.config, f);
        simulation_outcome_is_determined(t.config, f, f, t);
    }
    let (c, d) = choose|c: Committee, d: Dag| replayed(t, c, d);
    assert(replay_state(t, c, d));
    assert(replay_verdict(t, c, d, res));
    match res {
        Err(VerifyError::Provenance(p)) => {
            assert(t.config.stakes@ == t.config.stakes@);
            let g = choose|g: Trace| simulated_trace(g, t.config) && first_difference(g, t) == Some(p@);
            simulation_is_deterministic(g, t, t.config);
        },
        _ => {},
    }
}

/// With distinct ids, the last block recorded under an id is the only one.
proof fn lemma_last_author(blocks: Seq<BlockView>, j: int)
    requires
        0 <= j < blocks.len(),
        forall|a: int, b: int| 0 <= a < b < blocks.len() ==> #[trigger] blocks[a].id != #[trigger] blocks[b].id,
    ensures
        last_author(blocks, blocks[j].id) == Some(blocks[j].author),
    decreases blocks.len(),
{
    if j < blocks.len() - 1 {
        let d = blocks.drop_last();
        assert(blocks[j].id != blocks[blocks.len() - 1].id);
        assert forall|a: int, b: int| 0 <= a < b < d.len() implies #[trigger] d[a].id != #[trigger] d[b].id by {
            assert(d[a] == blocks[a] && d[b] == blocks[b]);
        }
        assert(d[j] == blocks[j]);
        lemma_last_author(d, j);
    }
}

/// Any replay of a trace that replays as recorded also replays as recorded.
proof fn lemma_replayed_determined(t: Trace, c: Committee, d: Dag, c2: Committee, d2: Dag)
    requires
        replayed(t, c, d),
        replay_state(t, c2, d2),
    ensures
        replayed(t, c2, d2),
{
    let m = committee_outcome(authority_views(t.committee@))->Ok_0.0;
    lemma_roster_determined(c, c2, m);
    lemma_build_outcome_views(c.roster(), c2.roster(), t.blocks@);
    lemma_listing_determined(d, d2);
    let ds = decision_views(t.decisions@);
    let n = t.config.slots as int;
    lemma_all_decisions_congruent(ds, c, c2, d@, d.listing(), n);
    lemma_audit_congruent(ds, c, c2, d@, d.listing(), n);
    lemma_stake_of_set_views(c.roster(), c2.roster(), named_set(t.config.byzantine_authorities@));
}

/// Replays of two traces with the same committee, blocks, slots and Byzantine members
/// decide and report alike.
proof fn lemma_replays_agree(t1: Trace, c1: Committee, d1: Dag, t2: Trace, c2: Committee, d2: Dag)
    requires
        replayed(t1, c1, d1),
        replayed(t2, c2, d2),
        authority_views(t1.committee@) == authority_views(t2.committee@),
        block_views(t1.blocks@) == block_views(t2.blocks@),
        t1.config.slots == t2.config.slots,
        t1.config.byzantine_authorities@ == t2.config.byzantine_authorities@,
    ensures
        decision_views(t1.decisions@) == decision_views(t2.decisions@),
        t1.invariants@ == t2.invariants@,
{
    let m = committee_outcome(authority_views(t1.committee@))->Ok_0.0;
    lemma_roster_determined(c1, c2, m);
    lemma_build_outcome_views(c1.roster(), c2.roster(), t1.blocks@);
    lemma_build_outcome_blocks(c2.roster(), t1.blocks@, t2.blocks@);
    lemma_listing_determined(d1, d2);
    let ds1 = decision_views(t1.decisions@);
    let ds2 = decision_views(t2.decisions@);
    let n = t1.config.slots as int;
    lemma_all_decisions_congruent(ds1, c1, c2, d1@, d1.listing(), n);
    lemma_all_decisions_equal(ds1, ds2, c2, d2@, d2.listing(), n);
    lemma_audit_congruent(ds1, c1, c2, d1@, d1.listing(), n);
    lemma_stake_of_set_views(c1.roster(), c2.roster(), named_set(t1.config.byzantine_authorities@));
}

/// One configuration gives one trace: any two traces that `simulate` returns for the same
/// configuration agree in every part that verification compares (committee, blocks,
/// events, decisions, scope, labels and invariant report).
pub proof fn simulation_is_deterministic(g1: Trace, g2: Trace, config: SimulationConfig)
    requires
        simulated_trace(g1, config),
        simulated_trace(g2, config),
    ensures
        first_difference(g1, g2) is None,
{
    lemma_simulated_runs_agree(g1, g2, config);
    let (c1, d1) = choose|c: Committee, d: Dag| replayed(g1, c, d);
    let (c2, d2) = choose|c: Committee, d: Dag| replayed(g2, c, d);
    lemma_replays_agree(g1, c1, d1, g2, c2, d2);
}

/// Runs of one configuration on members with the same ids and stakes build alike.
proof fn lemma_runs_build_alike(
    config: SimulationConfig,
    a1: Seq<Authority>,
    h1: Seq<WaveState>,
    b1: Seq<Block>,
    c1: Committee,
    a2: Seq<Authority>,
    h2: Seq<WaveState>,
    b2: Seq<Block>,
    c2: Committee,
)
    requires
        authority_views(a1) == named_committee(config.stakes@),
        authority_views(a2) == named_committee(config.stakes@),
        waves_history(config, a1, h1),
        h1.len() == config.slots + 1,
        h1.last().0 == block_views(b1),
        waves_history(config, a2, h2),
        h2.len() == config.slots + 1,
        h2.last().0 == block_views(b2),
        c1.valid(),
        c2.valid(),
        forms_committee(a1, c1),
        forms_committee(a2, c2),
    ensures
        build_outcome(c1.roster(), b1) == build_outcome(c2.roster(), b2),
{
    lemma_same_ids_of_views(a1, a2);
    lemma_run_determined(config, a1, a2, h1, h2);
    let m = committee_outcome(authority_views(a1))->Ok_0.0;
    lemma_roster_determined(c1, c2, m);
    lemma_build_outcome_views(c1.roster(), c2.roster(), b1);
    lemma_build_outcome_blocks(c2.roster(), b1, b2);
}

/// One configuration gives one outcome: a configuration whose run is refused with a DAG
/// error is refused with that error alone, and has no trace.
pub proof fn simulation_outcome_is_determined(config: SimulationConfig, e1: DagFault, e2: DagFault, t: Trace)
    requires
        dag_refusal(config, e1),
    ensures
        dag_refusal(config, e2) ==> e1 == e2,
        !simulated_trace(t, config),
{
    let (a1, h1, b1, c1) = choose|a: Seq<Authority>, hist: Seq<WaveState>, blocks: Seq<Block>, c: Committee|
        #[trigger] refused_run(config, a, hist, blocks, c, e1);
    if dag_refusal(config, e2) {
        let (a2, h2, b2, c2) = choose|a: Seq<Authority>, hist: Seq<WaveState>, blocks: Seq<Block>, c: Committee|
            #[trigger] refused_run(config, a, hist, blocks, c, e2);
        lemma_runs_build_alike(config, a1, h1, b1, c1, a2, h2, b2, c2);
    }
    if simulated_trace(t, config) {
        let (h2, u) = choose|hist: Seq<WaveState>, u: Seq<Event>| #[trigger] crate::simulator::run_of(t, config, hist, u);
        let (c2, d2) = choose|c: Committee, d: Dag| replayed(t, c, d);
        assert(t.config.stakes@ == config.stakes@);
        lemma_runs_build_alike(config, a1, h1, b1, c1, t.committee@, h2, t.blocks@, c2);
    }
}

/// Replays are deterministic: unless two of its blocks of different identities collide on
/// their SHA-256 ids, a trace that the simulator produces passes every verification check made
/// before the comparison with a regenerated run (schema, seed, configuration, committee,
/// stakes and events), and every replay of its committee and blocks reproduces its
/// recorded decisions and invariant report.
pub proof fn simulated_traces_replay(t: Trace, config: SimulationConfig)
    requires
        simulated_trace(t, config),
        config_fault(config) is None,
        !ids_collide(block_views(t.blocks@)),
    ensures
        passes_through(t, 6),
        forall|c: Committee, d: Dag| #[trigger] replay_state(t, c, d) ==> replayed(t, c, d),
{
    let n = config.stakes@.len() as nat;
    let lo = config.latency_min_ms;
    let hi = config.latency_max_ms;
    let bv = block_views(t.blocks@);
    let ev = event_views(t.events@);
    let (c0, d0) = choose|c: Committee, d: Dag| replayed(t, c, d);
    assert(t.config.stakes@ == config.stakes@);
    assert(authority_views(t.committee@).len() == t.committee@.len());
    assert forall|x: Seq<char>| names_member(x, n) implies member_named(t.committee@, x) by {
        let k = choose|k: nat| k < n && x == #[trigger] authority_name(k);
        assert(authority_views(t.committee@)[k as int] == named_committee(config.stakes@)[k as int]);
        assert(t.committee@[k as int].id@ == x);
    }
    assert forall|a: int, b: int| 0 <= a < b < bv.len() implies #[trigger] bv[a].id != #[trigger] bv[b].id by {
        assert((|x: BlockView| identity_of(x))(bv[a]) != (|x: BlockView| identity_of(x))(bv[b]));
        assert(from_committee(bv[a], n) && from_committee(bv[b], n));
        if bv[a].id == bv[b].id {
            assert(identity_of(bv[a]) != identity_of(bv[b]));
            assert(ids_collide(bv));
        }
    }
    assert forall|i: int| 0 <= i < t.events@.len() implies #[trigger] event_ok(t, i) by {
        let e = t.events@[i];
        assert(ev[i] == e@);
        assert(sound_event(ev[i], bv, n, lo, hi));
        reveal(sound_event);
        let j = choose|j: int| 0 <= j < bv.len() && bv[j].id == e.block_id@ && bv[j].author == e.sender@;
        assert(from_committee(bv[j], n));
        lemma_last_author(bv, j);
    }
    assert forall|c: Committee, d: Dag| #[trigger] replay_state(t, c, d) implies replayed(t, c, d) by {
        lemma_replayed_determined(t, c0, d0, c, d);
    }
}

/// Tamper rejection: decisions that differ from those recorded in a trace that replays as
/// recorded can never be the replayed decisions of the same committee and blocks, so
/// verification answers such a trace with a decision mismatch once its earlier checks pass.
pub proof fn altered_decisions_are_rejected(t: Trace, altered: Trace, c: Committee, d: Dag)
    requires
        replayed(t, c, d),
        altered.committee@ == t.committee@,
        altered.blocks@ == t.blocks@,
        altered.config.slots == t.config.slots,
        decision_views(altered.decisions@) != decision_views(t.decisions@),
    ensures
        replay_state(altered, c, d),
        !all_decisions(decision_views(altered.decisions@), c, d@, d.listing(), altered.config.slots as int),
        replay_verdict(altered, c, d, Err(VerifyError::DecisionMismatch)),
{
    if all_decisions(decision_views(altered.decisions@), c, d@, d.listing(), altered.config.slots as int) {
        lemma_all_decisions_equal(decision_views(altered.decisions@), decision_views(t.decisions@), c, d@, d.listing(), t.config.slots as int);
    }
}

/// In a simulated run (of at most 2^32 members) every honest author issues at most one
/// support block per slot.
proof fn lemma_simulated_single_support(t: Trace, config: SimulationConfig, c: Committee, d: Dag)
    requires
        simulated_trace(t, config),
        config.stakes@.len() <= 0x1_0000_0000,
        replay_state(t, c, d),
    ensures
        honest_single_support(d.listing(), named_set(config.byzantine_authorities@)),
{
    let z = named_set(config.byzantine_authorities@);
    let bv = block_views(t.blocks@);
    let l = d.listing();
    lemma_built_listing_from(c.roster(), t.blocks@, d);
    d.lemma_listing();
    assert forall|i: int, j: int| 0 <= i < l.len() && 0 <= j < l.len() && same_supporter(#[trigger] l[i], #[trigger] l[j], z) implies i == j by {
        let a = choose|m: int| 0 <= m < t.blocks@.len() && #[trigger] l[i] == block_views(t.blocks@)[m];
        let b = choose|m: int| 0 <= m < t.blocks@.len() && #[trigger] l[j] == block_views(t.blocks@)[m];
        assert(bv[a].variant == 0 && bv[b].variant == 0);
        if a != b {
            if a < b {
                assert((|x: BlockView| identity_of(x))(bv[a]) != (|x: BlockView| identity_of(x))(bv[b]));
            } else {
                assert((|x: BlockView| identity_of(x))(bv[b]) != (|x: BlockView| identity_of(x))(bv[a]));
            }
        }
        if i != j {
            if i < j {
                assert(text_lt(l[i].id, l[j].id));
                lemma_text_lt_irreflexive(l[i].id);
            } else {
                assert(text_lt(l[j].id, l[i].id));
                lemma_text_lt_irreflexive(l[j].id);
            }
        }
    }
}

/// With Byzantine stake within the fault bound and honest single support, the decisions
/// of a DAG hold no two quorum-supported (or committed) proposals of one slot.
proof fn lemma_decisions_conflict_free(c: Committee, d: Dag, ds: Seq<DecisionView>, n: int, z: Set<Seq<char>>, by_commit: bool)
    requires
        c.valid(),
        d.valid(),
        all_decisions(ds, c, d@, d.listing(), n),
        stake_of_set(c.roster(), z) <= fault_bound_for(c.total()),
        honest_single_support(d.listing(), z),
    ensures
        conflict_free(ds, by_commit, quorum_for(c.total())),
{
    let q = quorum_for(c.total());
    let l = d.listing();
    assert forall|i: int, j: int| 0 <= i < ds.len() && 0 <= j < ds.len() implies !conflicting(#[trigger] ds[i], #[trigger] ds[j], by_commit, q) by {
        if conflicting(ds[i], ds[j], by_commit, q) {
            lemma_each_decision(ds, c, d@, l, n, i);
            lemma_each_decision(ds, c, d@, l, n, j);
            let slot = ds[i].slot;
            let p1 = ds[i].proposal_id->Some_0;
            let p2 = ds[j].proposal_id->Some_0;
            assert(is_proposal_decision(ds[i], c, d@, l, slot, p1));
            assert(is_proposal_decision(ds[j], c, d@, l, slot, p2));
            if by_commit {
                lemma_commit_has_quorum_support(c, d, slot, p1);
                lemma_commit_has_quorum_support(c, d, slot, p2);
            }
            certified_proposals_agree(c, d, z, slot, p1, p2);
        }
    }
}

/// Every commit among the decisions of a DAG carries certificate-author quorum stake.
proof fn lemma_decisions_commits_meet_quorum(c: Committee, d: Dag, ds: Seq<DecisionView>, n: int)
    requires
        all_decisions(ds, c, d@, d.listing(), n),
    ensures
        commits_meet_quorum(ds, quorum_for(c.total()), true),
{
    assert forall|i: int| 0 <= i < ds.len() && #[trigger] ds[i].kind == DecisionKind::Commit
        implies ds[i].certificate_author_stake >= quorum_for(c.total()) && true by {
        lemma_each_decision(ds, c, d@, d.listing(), n, i);
    }
}

/// What a simulated run reports: honest authors support at most once per slot, and every
/// check passes, with every assumption satisfied, exactly when the configured Byzantine
/// stake is within the fault bound (for committees of at most 2^32 members, whose indices
/// fit the `u32` fault lists).
pub proof fn simulated_report_verdict(t: Trace, config: SimulationConfig, c: Committee, d: Dag)
    requires
        simulated_trace(t, config),
        config_fault(config) is None,
        config.stakes@.len() <= 0x1_0000_0000,
        replay_state(t, c, d),
    ensures
        honest_single_support(d.listing(), named_set(config.byzantine_authorities@)),
        t.invariants@.all_passed == (stake_of_set(c.roster(), named_set(config.byzantine_authorities@)) <= fault_bound_for(c.total())),
        report_passes(t.invariants@) == t.invariants@.all_passed,
{
    let (c0, d0) = choose|c: Committee, d: Dag| replayed(t, c, d);
    lemma_replayed_determined(t, c0, d0, c, d);
    let z = named_set(config.byzantine_authorities@);
    let n = t.config.slots as int;
    let ds = decision_views(t.decisions@);
    let l = d.listing();
    assert(t.config.byzantine_authorities@ == config.byzantine_authorities@);
    lemma_simulated_single_support(t, config, c, d);
    assert forall|s: u32| s < n implies wave_representable(s) by {}
    audit_accepts_evaluation(ds, c, d@, l, n);
    lemma_decisions_commits_meet_quorum(c, d, ds, n);
    if stake_of_set(c.roster(), z) <= fault_bound_for(c.total()) {
        lemma_decisions_conflict_free(c, d, ds, n, z, true);
        lemma_decisions_conflict_free(c, d, ds, n, z, false);
    }
    let r = report_for(c, d@, l, ds, t.config.slots, t.config.byzantine_authorities@);
    assert(t.invariants@ == r);
    if r.all_passed {
        assert forall|i: int| 0 <= i < r.assumptions.len() implies #[trigger] r.assumptions[i].1 by {}
    }
}

/// Runs without Byzantine authorities pass: every check of their report passes and every
/// assumption is satisfied (for committees of at most 2^32 members).
pub proof fn honest_runs_pass(t: Trace, config: SimulationConfig, c: Committee, d: Dag)
    requires
        simulated_trace(t, config),
        config_fault(config) is None,
        config.stakes@.len() <= 0x1_0000_0000,
        config.byzantine_authorities@.len() == 0,
        replay_state(t, c, d),
    ensures
        t.invariants@.all_passed,
        report_passes(t.invariants@),
{
    simulated_report_verdict(t, config, c, d);
    let z = named_set(config.byzantine_authorities@);
    assert(z =~= Set::<Seq<char>>::empty());
    lemma_stake_of_set_empty(c.roster());
}

proof fn lemma_stake_of_set_empty(r: Seq<Authority>)
    ensures
        stake_of_set(r, Set::<Seq<char>>::empty()) == 0,
    decreases r.len(),
{
    if r.len() > 0 {
        lemma_stake_of_set_empty(r.drop_last());
    }
}

} // verus!
