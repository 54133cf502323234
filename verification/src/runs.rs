use vstd::prelude::*;
use crate::dag::{block_views, ids_collide, identity_of};
use crate::model::{Authority, BlockView, authority_views};
use crate::simulator::{
    SimulationConfig, WaveState, waves_history, wave_at, wave_trace, proposals_of, support_made, support_round,
    certificates_made, certificate_round, support_view, variants_view, simulated_trace, run_of, named_committee,
    ids_distinct, config_fault, index_outside, delivered_to, receiver_index, delivered_views, broadcasts,
    broadcast_event, empty_views, phase_ids, latest_with_id, numbered,
};
use crate::trace::{Trace, authority_name, named_set, replayed, forms_committee, Event, EventView, EventStatus, event_views};
use crate::sorting::{stable_sorted, lemma_stable_sorted_elements, lemma_stable_sorted_multiset};
use crate::wave::{WaveRounds, spec_wave_rounds, wave_representable};

verus! {

/// Member `i` of a run of `config` is not crashed.
pub open spec fn live(config: SimulationConfig, i: int) -> bool {
    !config.crash_authorities@.contains(i as u32)
}

/// `x` was issued by a live member of `auths`, as variant 0 unless it is a proposal of a
/// Byzantine member.
pub open spec fn issued(config: SimulationConfig, auths: Seq<Authority>, x: BlockView) -> bool {
    &&& exists|i: int| 0 <= i < auths.len() && #[trigger] auths[i].id@ == x.author && live(config, i)
    &&& (x.round == 3 * x.slot && x.variant != 0 ==> exists|i: int| 0 <= i < auths.len()
        && #[trigger] auths[i].id@ == x.author && config.byzantine_authorities@.contains(i as u32))
}

/// Every block of `s` was issued at `slot` in `round`.
pub open spec fn all_issued(config: SimulationConfig, auths: Seq<Authority>, s: Seq<BlockView>, slot: u32, round: int) -> bool {
    forall|k: int| 0 <= k < s.len() ==> issued(config, auths, #[trigger] s[k]) && s[k].slot == slot && s[k].round == round
}

proof fn lemma_concat_issued(config: SimulationConfig, auths: Seq<Authority>, a: Seq<BlockView>, b: Seq<BlockView>, slot: u32, round: int)
    requires
        all_issued(config, auths, a, slot, round),
        all_issued(config, auths, b, slot, round),
    ensures
        all_issued(config, auths, a + b, slot, round),
{
    assert forall|k: int| 0 <= k < (a + b).len() implies issued(config, auths, #[trigger] (a + b)[k]) && (a + b)[k].slot == slot
        && (a + b)[k].round == round by {
        if k < a.len() {
            assert((a + b)[k] == a[k]);
        } else {
            assert((a + b)[k] == b[k - a.len()]);
        }
    }
}

/// The support blocks of a wave are issued by live members.
proof fn lemma_support_round_issued(config: SimulationConfig, auths: Seq<Authority>, views: Seq<Seq<Seq<char>>>, known: Seq<BlockView>, slot: u32, i0: int)
    requires
        0 <= i0,
        wave_representable(slot),
    ensures
        all_issued(config, auths, support_round(config, auths, views, known, slot, spec_wave_rounds(slot), i0), slot, 3 * slot + 1),
    decreases auths.len() - i0,
{
    let rounds = spec_wave_rounds(slot);
    if i0 < auths.len() {
        let made = support_made(config, auths, views[i0], known, slot, rounds, i0);
        lemma_support_round_issued(config, auths, views, known + made, slot, i0 + 1);
        assert forall|k: int| 0 <= k < made.len() implies issued(config, auths, #[trigger] made[k]) && made[k].slot == slot
            && made[k].round == 3 * slot + 1 by {
            assert(auths[i0].id@ == made[k].author);
        }
        lemma_concat_issued(config, auths, made, support_round(config, auths, views, known + made, slot, rounds, i0 + 1), slot, 3 * slot + 1);
    }
}

/// The certificate blocks of a wave are issued by live members.
proof fn lemma_certificate_round_issued(config: SimulationConfig, auths: Seq<Authority>, views: Seq<Seq<Seq<char>>>, known: Seq<BlockView>, slot: u32, i0: int)
    requires
        0 <= i0,
        wave_representable(slot),
    ensures
        all_issued(config, auths, certificate_round(config, auths, views, known, slot, spec_wave_rounds(slot), i0), slot, 3 * slot + 2),
    decreases auths.len() - i0,
{
    let rounds = spec_wave_rounds(slot);
    if i0 < auths.len() {
        let made = certificates_made(config, auths, views[i0], known, slot, rounds, i0);
        lemma_certificate_round_issued(config, auths, views, known + made, slot, i0 + 1);
        assert forall|k: int| 0 <= k < made.len() implies issued(config, auths, #[trigger] made[k]) && made[k].slot == slot
            && made[k].round == 3 * slot + 2 by {
            assert(auths[i0].id@ == made[k].author);
        }
        lemma_concat_issued(config, auths, made, certificate_round(config, auths, views, known + made, slot, rounds, i0 + 1), slot, 3 * slot + 2);
    }
}

/// The proposals of a wave come from its live leader, as variant 0 unless the leader is Byzantine.
proof fn lemma_proposals_issued(config: SimulationConfig, auths: Seq<Authority>, slot: u32)
    requires
        wave_representable(slot),
        auths.len() > 0,
    ensures
        all_issued(config, auths, proposals_of(config, auths, slot, spec_wave_rounds(slot).proposal), slot, 3 * slot),
{
    let p = proposals_of(config, auths, slot, spec_wave_rounds(slot).proposal);
    let leader = (slot as int) % (auths.len() as int);
    assert forall|k: int| 0 <= k < p.len() implies issued(config, auths, #[trigger] p[k]) && p[k].slot == slot
        && p[k].round == 3 * slot by {
        assert(auths[leader].id@ == p[k].author);
    }
}

/// The blocks that wave `s` adds, with the start and end states of a history.
proof fn lemma_wave_adds(config: SimulationConfig, auths: Seq<Authority>, hist: Seq<WaveState>, s: int)
    requires
        waves_history(config, auths, hist),
        0 <= s < hist.len() - 1,
        wave_representable(s as u32),
        auths.len() > 0,
    ensures
        exists|w: Seq<BlockView>| hist[s + 1].0 == hist[s].0 + w && #[trigger] all_issued_wave(config, auths, w, s as u32),
{
    assert(wave_at(config, auths, hist, s));
    let slot = s as u32;
    let (m, a, b, c) = choose|m: Seq<Seq<Seq<char>>>, a: Seq<crate::trace::EventView>, b: Seq<crate::trace::EventView>, c: Seq<crate::trace::EventView>|
        #[trigger] wave_trace(config, auths, slot, hist[s].0, hist[s].1, hist[s].2, m, a, b, c, hist[s + 1].0, hist[s + 1].1, hist[s + 1].2,
            hist[s].3, hist[s + 1].3);
    let rounds = spec_wave_rounds(slot);
    let p = proposals_of(config, auths, slot, rounds.proposal);
    let sr = support_round(config, auths, m, hist[s].0 + p, slot, rounds, 0);
    let cr = certificate_round(config, auths, hist[s + 1].2, hist[s].0 + p + sr, slot, rounds, 0);
    lemma_proposals_issued(config, auths, slot);
    lemma_support_round_issued(config, auths, m, hist[s].0 + p, slot, 0);
    lemma_certificate_round_issued(config, auths, hist[s + 1].2, hist[s].0 + p + sr, slot, 0);
    assert(hist[s + 1].0 == hist[s].0 + (p + sr + cr));
    assert(all_issued_wave(config, auths, p + sr + cr, slot)) by {
        assert forall|k: int| 0 <= k < (p + sr + cr).len() implies issued(config, auths, #[trigger] (p + sr + cr)[k])
            && (p + sr + cr)[k].slot == slot by {
            let w = p + sr + cr;
            if k < p.len() {
                assert(w[k] == p[k]);
            } else if k < p.len() + sr.len() {
                assert(w[k] == sr[k - p.len()]);
            } else {
                assert(w[k] == cr[k - p.len() - sr.len()]);
            }
        }
    }
}

/// Every block of `w` was issued at `slot`.
pub open spec fn all_issued_wave(config: SimulationConfig, auths: Seq<Authority>, w: Seq<BlockView>, slot: u32) -> bool {
    forall|k: int| 0 <= k < w.len() ==> issued(config, auths, #[trigger] w[k]) && w[k].slot == slot
}

/// Every block of a run's history was issued by a live member in an earlier wave.
proof fn lemma_history_issued(config: SimulationConfig, auths: Seq<Authority>, hist: Seq<WaveState>, j: int)
    requires
        waves_history(config, auths, hist),
        0 <= j < hist.len(),
        hist.len() <= config.slots + 1,
        config_fault(config) is None,
        auths.len() > 0,
    ensures
        forall|k: int| 0 <= k < hist[j].0.len() ==> issued(config, auths, #[trigger] hist[j].0[k]) && hist[j].0[k].slot < j,
    decreases j,
{
    if j > 0 {
        lemma_history_issued(config, auths, hist, j - 1);
        assert(wave_representable((j - 1) as u32)) by {
            assert(wave_representable((config.slots - 1) as u32));
        }
        lemma_wave_adds(config, auths, hist, j - 1);
        let w = choose|w: Seq<BlockView>| hist[j].0 == hist[j - 1].0 + w && #[trigger] all_issued_wave(config, auths, w, (j - 1) as u32);
        assert forall|k: int| 0 <= k < hist[j].0.len() implies issued(config, auths, #[trigger] hist[j].0[k]) && hist[j].0[k].slot < j by {
            if k < hist[j - 1].0.len() {
                assert(hist[j].0[k] == hist[j - 1].0[k]);
            } else {
                assert(hist[j].0[k] == w[k - hist[j - 1].0.len()]);
            }
        }
    }
}


/// The committee of a simulated trace: member `i` is `authority-i`, and there is at least one.
proof fn lemma_trace_members(t: Trace, config: SimulationConfig)
    requires
        simulated_trace(t, config),
    ensures
        t.committee@.len() == config.stakes@.len(),
        t.committee@.len() > 0,
        ids_distinct(t.committee@),
        forall|i: int| 0 <= i < t.committee@.len() ==> #[trigger] t.committee@[i].id@ == authority_name(i as nat),
{
    let a = t.committee@;
    let v = named_committee(config.stakes@);
    let (c, d) = choose|c: crate::model::Committee, d: crate::dag::Dag| replayed(t, c, d);
    assert(forms_committee(a, c));
    assert(authority_views(a).len() == a.len());
    assert(committee_outcome_ok(v));
    crate::model::lemma_admission_members(v);
    assert forall|i: int| 0 <= i < a.len() implies #[trigger] a[i].id@ == authority_name(i as nat) by {
        assert(authority_views(a)[i] == (a[i].id@, a[i].stake));
        assert(v[i] == (authority_name(i as nat), config.stakes@[i]));
    }
    assert forall|x: int, y: int| 0 <= x < y < a.len() implies #[trigger] a[x].id@ != #[trigger] a[y].id@ by {
        assert(authority_views(a)[x].0 == a[x].id@);
        assert(authority_views(a)[y].0 == a[y].id@);
    }
}

/// The committee outcome of `v` is a valid committee.
pub open spec fn committee_outcome_ok(v: Seq<(Seq<char>, u64)>) -> bool {
    &&& v.len() > 0
    &&& crate::model::committee_outcome(v) is Ok
}

/// Every block of a simulated trace was issued by a live member, as variant 0 unless it is a
/// proposal of a Byzantine member.
proof fn lemma_trace_issued(t: Trace, config: SimulationConfig)
    requires
        simulated_trace(t, config),
    ensures
        forall|j: int| 0 <= j < block_views(t.blocks@).len() ==> issued(config, t.committee@, #[trigger] block_views(t.blocks@)[j]),
{
    lemma_trace_members(t, config);
    let (hist, u) = choose|hist: Seq<WaveState>, u: Seq<crate::trace::Event>| #[trigger] run_of(t, config, hist, u);
    lemma_history_issued(config, t.committee@, hist, hist.len() - 1);
}

/// Crashed members issue no blocks: no block of a simulated trace has as author a member
/// whose index is among the crashed ones.
pub proof fn crashed_members_issue_no_blocks(t: Trace, config: SimulationConfig)
    requires
        simulated_trace(t, config),
    ensures
        forall|j: int, k: int| 0 <= j < t.blocks@.len() && 0 <= k < config.crash_authorities@.len()
            ==> #[trigger] t.blocks@[j].author@ != authority_name(#[trigger] config.crash_authorities@[k] as nat),
{
    lemma_trace_members(t, config);
    lemma_trace_issued(t, config);
    let a = t.committee@;
    let bv = block_views(t.blocks@);
    assert forall|j: int, k: int| 0 <= j < t.blocks@.len() && 0 <= k < config.crash_authorities@.len()
        implies #[trigger] t.blocks@[j].author@ != authority_name(#[trigger] config.crash_authorities@[k] as nat) by {
        assert(bv[j] == t.blocks@[j]@);
        assert(issued(config, a, bv[j]));
        let i = choose|i: int| 0 <= i < a.len() && #[trigger] a[i].id@ == bv[j].author && live(config, i);
        let x = config.crash_authorities@[k];
        assert(!index_outside(config.crash_authorities@, config.stakes@.len()));
        assert(x < a.len());
        if t.blocks@[j].author@ == authority_name(x as nat) {
            assert(a[x as int].id@ == authority_name(x as nat));
            assert(a[i].id@ == a[x as int].id@);
            if i < x {
                assert(a[i].id@ != a[x as int].id@);
            } else if x < i {
                assert(a[x as int].id@ != a[i].id@);
            }
            assert(config.crash_authorities@.contains(i as u32));
        }
    }
}

/// An honest leader proposes once: in a simulated trace (of a committee whose indices fit in
/// `u32`), every proposal-round block whose author is not a configured Byzantine member is
/// variant 0.
pub proof fn honest_leaders_propose_once(t: Trace, config: SimulationConfig)
    requires
        simulated_trace(t, config),
        config.stakes@.len() <= 0x1_0000_0000,
    ensures
        forall|j: int| 0 <= j < t.blocks@.len() && (#[trigger] t.blocks@[j]).round == 3 * t.blocks@[j].slot
            && !named_set(config.byzantine_authorities@).contains(t.blocks@[j].author@) ==> t.blocks@[j].variant == 0,
{
    lemma_trace_members(t, config);
    lemma_trace_issued(t, config);
    let a = t.committee@;
    let bv = block_views(t.blocks@);
    assert forall|j: int| 0 <= j < t.blocks@.len() && (#[trigger] t.blocks@[j]).round == 3 * t.blocks@[j].slot
        && !named_set(config.byzantine_authorities@).contains(t.blocks@[j].author@) implies t.blocks@[j].variant == 0 by {
        assert(bv[j] == t.blocks@[j]@);
        assert(issued(config, a, bv[j]));
        if t.blocks@[j].variant != 0 {
            let i = choose|i: int| 0 <= i < a.len() && #[trigger] a[i].id@ == bv[j].author && config.byzantine_authorities@.contains(i as u32);
            let k = choose|k: int| 0 <= k < config.byzantine_authorities@.len() && config.byzantine_authorities@[k] == i as u32;
            assert(config.byzantine_authorities@[k] as nat == i);
            assert(a[i].id@ == authority_name(i as nat));
            assert(named_set(config.byzantine_authorities@).contains(t.blocks@[j].author@));
        }
    }
}


/// The start of phase `phase` (0 proposal, 1 support, 2 certificate) of wave `slot`.
pub open spec fn phase_time(config: SimulationConfig, slot: int, phase: int) -> int {
    (3 * slot + phase) * config.round_duration_ms
}

/// Ids delivered to member `k` by `deadline` among `events`, from broadcasts sent before
/// the deadline.
pub open spec fn seen(events: Seq<EventView>, deadline: int, k: int) -> Set<Seq<char>> {
    Set::new(|id: Seq<char>| exists|i: int| 0 <= i < events.len() && #[trigger] events[i].block_id == id
        && events[i].status == EventStatus::Delivered && events[i].outcome_at_ms <= deadline
        && events[i].scheduled_at_ms < deadline && receiver_index(events[i].receiver) == Some(k as usize))
}

/// Every event of `ev` was scheduled before `t`.
pub open spec fn sent_before(ev: Seq<EventView>, t: int) -> bool {
    forall|i: int| 0 <= i < ev.len() ==> (#[trigger] ev[i]).scheduled_at_ms < t
}

/// Every event of `ev` was scheduled at `t` or later.
pub open spec fn sent_from_time(ev: Seq<EventView>, t: int) -> bool {
    forall|i: int| 0 <= i < ev.len() ==> (#[trigger] ev[i]).scheduled_at_ms >= t
}

proof fn lemma_broadcasts_at(ev: Seq<EventView>, bs: Seq<BlockView>, auths: Seq<Authority>, at: u64, lo: u64, hi: u64)
    requires
        broadcasts(ev, bs, auths, at, lo, hi),
    ensures
        forall|i: int| 0 <= i < ev.len() ==> (#[trigger] ev[i]).scheduled_at_ms == at,
    decreases bs.len(),
{
    if bs.len() > 0 {
        let n = auths.len();
        let a = ev.take(ev.len() - n);
        let b = ev.skip(ev.len() - n);
        lemma_broadcasts_at(a, bs.drop_last(), auths, at, lo, hi);
        assert forall|i: int| 0 <= i < ev.len() implies (#[trigger] ev[i]).scheduled_at_ms == at by {
            if i < ev.len() - n {
                assert(ev[i] == a[i]);
            } else {
                assert(ev[i] == b[i - (ev.len() - n)]);
                assert(broadcast_event(b[i - (ev.len() - n)], bs.last(), auths[i - (ev.len() - n)].id@, at, lo, hi));
            }
        }
    } else {
        assert(ev.len() == 0);
    }
}

/// What arrives by a deadline among events all sent before it is what `seen` holds.
proof fn lemma_seen_delivered(ev: Seq<EventView>, t: u64, k: int)
    requires
        sent_before(ev, t as int),
    ensures
        seen(ev, t as int, k) == delivered_to(ev, t, k),
{
    assert forall|id: Seq<char>| seen(ev, t as int, k).contains(id) <==> delivered_to(ev, t, k).contains(id) by {
        if delivered_to(ev, t, k).contains(id) {
            let i = choose|i: int| 0 <= i < ev.len() && #[trigger] ev[i].block_id == id
                && ev[i].status == EventStatus::Delivered && ev[i].outcome_at_ms <= t
                && receiver_index(ev[i].receiver) == Some(k as usize);
            assert(ev[i].scheduled_at_ms < t);
        }
    }
    assert(seen(ev, t as int, k) =~= delivered_to(ev, t, k));
}

/// More events and a later deadline see at least as much.
proof fn lemma_seen_grow(a: Seq<EventView>, r: Seq<EventView>, t1: int, t2: int, k: int)
    requires
        t1 <= t2,
    ensures
        seen(a, t1, k).subset_of(seen(a + r, t2, k)),
{
    assert forall|id: Seq<char>| seen(a, t1, k).contains(id) implies seen(a + r, t2, k).contains(id) by {
        let i = choose|i: int| 0 <= i < a.len() && #[trigger] a[i].block_id == id
            && a[i].status == EventStatus::Delivered && a[i].outcome_at_ms <= t1
            && a[i].scheduled_at_ms < t1 && receiver_index(a[i].receiver) == Some(k as usize);
        assert((a + r)[i] == a[i]);
    }
}

/// Events sent at or after a deadline add nothing to what is seen by it.
proof fn lemma_seen_late(a: Seq<EventView>, r: Seq<EventView>, t: int, k: int)
    requires
        sent_from_time(r, t),
    ensures
        seen(a + r, t, k) == seen(a, t, k),
{
    assert forall|id: Seq<char>| seen(a + r, t, k).contains(id) <==> seen(a, t, k).contains(id) by {
        if seen(a + r, t, k).contains(id) {
            let i = choose|i: int| 0 <= i < (a + r).len() && #[trigger] (a + r)[i].block_id == id
                && (a + r)[i].status == EventStatus::Delivered && (a + r)[i].outcome_at_ms <= t
                && (a + r)[i].scheduled_at_ms < t && receiver_index((a + r)[i].receiver) == Some(k as usize);
            if i >= a.len() {
                assert((a + r)[i] == r[i - a.len()]);
            } else {
                assert((a + r)[i] == a[i]);
            }
        }
        if seen(a, t, k).contains(id) {
            lemma_seen_grow(a, r, t, t, k);
        }
    }
    assert(seen(a + r, t, k) =~= seen(a, t, k));
}

/// The phase times of a wave of a valid configuration, as the run computes them.
proof fn lemma_phase_times(config: SimulationConfig, j: int)
    requires
        config_fault(config) is None,
        0 <= j < config.slots,
    ensures
        wave_representable(j as u32),
        spec_wave_rounds(j as u32).proposal == 3 * j,
        spec_wave_rounds(j as u32).support == 3 * j + 1,
        spec_wave_rounds(j as u32).certificate == 3 * j + 2,
        ({
            let t0 = (spec_wave_rounds(j as u32).proposal * config.round_duration_ms) as u64;
            let t1 = (t0 + config.round_duration_ms) as u64;
            let t2 = (t1 + config.round_duration_ms) as u64;
            &&& t0 == phase_time(config, j, 0)
            &&& t1 == phase_time(config, j, 1)
            &&& t2 == phase_time(config, j, 2)
        }),
        phase_time(config, j, 0) < phase_time(config, j, 1) < phase_time(config, j, 2) < phase_time(config, j + 1, 0),
{
    let rd = config.round_duration_ms;
    assert(wave_representable((config.slots - 1) as u32));
    crate::simulator::lemma_wave_times_fit(j as u32, config.slots, rd, config.latency_max_ms);
    assert((3 * j + 1) * rd == 3 * j * rd + rd) by (nonlinear_arith);
    assert((3 * j + 2) * rd == 3 * j * rd + 2 * rd) by (nonlinear_arith);
    assert((3 * (j + 1) + 0) * rd == 3 * j * rd + 3 * rd) by (nonlinear_arith);
    assert((3 * j + 0) * rd == 3 * j * rd) by (nonlinear_arith);
}

/// Later waves start later.
proof fn lemma_phase_time_monotone(config: SimulationConfig, a: int, b: int)
    requires
        0 <= a <= b,
    ensures
        phase_time(config, a, 0) <= phase_time(config, b, 0),
{
    let rd = config.round_duration_ms;
    assert((3 * a + 0) * rd <= (3 * b + 0) * rd) by (nonlinear_arith)
        requires
            0 <= a <= b,
            rd >= 0,
    {
    }
}


/// The witnesses of one wave's run: the views after the first delivery round and the
/// broadcasts of proposals, support and certificate blocks.
pub type WaveRun = (Seq<Seq<Seq<char>>>, Seq<EventView>, Seq<EventView>, Seq<EventView>);

/// What the local views of a run hold at the start of wave `j`, and that its events were
/// all sent before the wave starts.
pub open spec fn views_at(config: SimulationConfig, auths: Seq<Authority>, st: WaveState, j: int) -> bool {
    &&& st.2.len() == auths.len()
    &&& sent_before(st.1, phase_time(config, j, 0))
    &&& forall|k: int| 0 <= k < st.2.len() ==> (#[trigger] st.2[k]).to_set()
        == (if j == 0 { Set::<Seq<char>>::empty() } else { seen(st.1, phase_time(config, j - 1, 2), k) })
}

/// Wave `slot` of a history runs with the witnesses `w`.
pub open spec fn wave_run(config: SimulationConfig, auths: Seq<Authority>, hist: Seq<WaveState>, slot: int, w: WaveRun) -> bool {
    wave_trace(config, auths, slot as u32, hist[slot].0, hist[slot].1, hist[slot].2, w.0, w.1, w.2, w.3,
        hist[slot + 1].0, hist[slot + 1].1, hist[slot + 1].2, hist[slot].3, hist[slot + 1].3)
}

/// Witnesses of wave `slot` of a history.
proof fn lemma_wave_witness(config: SimulationConfig, auths: Seq<Authority>, hist: Seq<WaveState>, slot: int) -> (w: WaveRun)
    requires
        waves_history(config, auths, hist),
        0 <= slot < hist.len() - 1,
    ensures
        wave_run(config, auths, hist, slot, w),
{
    assert(wave_at(config, auths, hist, slot));
    let (m, a, b, c) = choose|m: Seq<Seq<Seq<char>>>, a: Seq<EventView>, b: Seq<EventView>, c: Seq<EventView>|
        #[trigger] wave_trace(config, auths, slot as u32, hist[slot].0, hist[slot].1, hist[slot].2, m, a, b, c,
            hist[slot + 1].0, hist[slot + 1].1, hist[slot + 1].2, hist[slot].3, hist[slot + 1].3);
    (m, a, b, c)
}

/// One wave: the first delivery round makes the views hold what was seen by the support
/// deadline, the second what was seen by the certificate deadline.
proof fn lemma_wave_views(config: SimulationConfig, auths: Seq<Authority>, hist: Seq<WaveState>, j: int, w: WaveRun)
    requires
        config_fault(config) is None,
        waves_history(config, auths, hist),
        0 <= j < hist.len() - 1,
        j < config.slots,
        views_at(config, auths, hist[j], j),
        wave_run(config, auths, hist, j, w),
    ensures
        forall|k: int| 0 <= k < auths.len() ==> (#[trigger] w.0[k]).to_set() == seen(hist[j].1 + w.1, phase_time(config, j, 1), k),
        forall|k: int| 0 <= k < auths.len() ==> (#[trigger] hist[j + 1].2[k]).to_set() == seen(hist[j].1 + w.1 + w.2, phase_time(config, j, 2), k),
        w.0.len() == auths.len(),
        hist[j + 1].1 == hist[j].1 + w.1 + w.2 + w.3,
        forall|i: int| 0 <= i < w.1.len() ==> (#[trigger] w.1[i]).scheduled_at_ms == phase_time(config, j, 0),
        forall|i: int| 0 <= i < w.2.len() ==> (#[trigger] w.2[i]).scheduled_at_ms == phase_time(config, j, 1),
        forall|i: int| 0 <= i < w.3.len() ==> (#[trigger] w.3[i]).scheduled_at_ms == phase_time(config, j, 2),
        views_at(config, auths, hist[j + 1], j + 1),
{
    lemma_phase_times(config, j);
    if j > 0 {
        lemma_phase_times(config, j - 1);
    }
    let slot = j as u32;
    let rounds = spec_wave_rounds(slot);
    let rd = config.round_duration_ms;
    let lo = config.latency_min_ms;
    let hi = config.latency_max_ms;
    let t0 = (rounds.proposal * rd) as u64;
    let t1 = (t0 + rd) as u64;
    let t2 = (t1 + rd) as u64;
    let st = hist[j];
    let nx = hist[j + 1];
    let p = proposals_of(config, auths, slot, rounds.proposal);
    let sr = support_round(config, auths, w.0, st.0 + p, slot, rounds, 0);
    let cr = certificate_round(config, auths, nx.2, st.0 + p + sr, slot, rounds, 0);
    lemma_broadcasts_at(w.1, p, auths, t0, lo, hi);
    lemma_broadcasts_at(w.2, sr, auths, t1, lo, hi);
    lemma_broadcasts_at(w.3, cr, auths, t2, lo, hi);
    let e1 = st.1 + w.1;
    let e2 = st.1 + w.1 + w.2;
    assert(sent_before(e1, t1 as int)) by {
        assert forall|i: int| 0 <= i < e1.len() implies (#[trigger] e1[i]).scheduled_at_ms < t1 by {
            if i < st.1.len() {
                assert(e1[i] == st.1[i]);
            } else {
                assert(e1[i] == w.1[i - st.1.len()]);
            }
        }
    }
    assert(sent_before(e2, t2 as int)) by {
        assert forall|i: int| 0 <= i < e2.len() implies (#[trigger] e2[i]).scheduled_at_ms < t2 by {
            if i < e1.len() {
                assert(e2[i] == e1[i]);
            } else {
                assert(e2[i] == w.2[i - e1.len()]);
            }
        }
    }
    assert forall|k: int| 0 <= k < auths.len() implies (#[trigger] w.0[k]).to_set() == seen(e1, phase_time(config, j, 1), k) by {
        lemma_seen_delivered(e1, t1, k);
        if j > 0 {
            lemma_seen_grow(st.1, w.1, phase_time(config, j - 1, 2), t1 as int, k);
        }
        assert(w.0[k].to_set() =~= seen(e1, t1 as int, k));
    }
    assert forall|k: int| 0 <= k < auths.len() implies (#[trigger] nx.2[k]).to_set() == seen(e2, phase_time(config, j, 2), k) by {
        lemma_seen_delivered(e2, t2, k);
        assert(w.0[k].to_set() == seen(e1, t1 as int, k));
        lemma_seen_grow(e1, w.2, t1 as int, t2 as int, k);
        assert(nx.2[k].to_set() =~= seen(e2, t2 as int, k));
    }
    assert(sent_before(nx.1, phase_time(config, j + 1, 0))) by {
        assert forall|i: int| 0 <= i < nx.1.len() implies (#[trigger] nx.1[i]).scheduled_at_ms < phase_time(config, j + 1, 0) by {
            if i < e2.len() {
                assert(nx.1[i] == e2[i]);
            } else {
                assert(nx.1[i] == w.3[i - e2.len()]);
            }
        }
    }
    assert forall|k: int| 0 <= k < nx.2.len() implies (#[trigger] nx.2[k]).to_set() == seen(nx.1, phase_time(config, j, 2), k) by {
        lemma_seen_late(e2, w.3, t2 as int, k);
    }
}

/// The views at the start of every wave of a history.
proof fn lemma_history_views(config: SimulationConfig, auths: Seq<Authority>, hist: Seq<WaveState>, j: int)
    requires
        config_fault(config) is None,
        waves_history(config, auths, hist),
        0 <= j < hist.len(),
        hist.len() <= config.slots + 1,
    ensures
        views_at(config, auths, hist[j], j),
    decreases j,
{
    if j == 0 {
        assert forall|k: int| 0 <= k < hist[0].2.len() implies (#[trigger] hist[0].2[k]).to_set() == Set::<Seq<char>>::empty() by {
            assert(hist[0].2[k] == Seq::<Seq<char>>::empty());
            assert(hist[0].2[k].to_set() =~= Set::<Seq<char>>::empty());
        }
    } else {
        lemma_history_views(config, auths, hist, j - 1);
        let w = lemma_wave_witness(config, auths, hist, j - 1);
        lemma_wave_views(config, auths, hist, j - 1, w);
    }
}

/// The events of a history from state `j` on were all sent from wave `j`'s start.
proof fn lemma_history_events_after(config: SimulationConfig, auths: Seq<Authority>, hist: Seq<WaveState>, j: int, m: int) -> (r: Seq<EventView>)
    requires
        config_fault(config) is None,
        waves_history(config, auths, hist),
        0 <= j <= m < hist.len(),
        hist.len() <= config.slots + 1,
    ensures
        hist[m].1 == hist[j].1 + r,
        sent_from_time(r, phase_time(config, j, 0)),
    decreases m - j,
{
    if m == j {
        assert(hist[m].1 == hist[j].1 + Seq::<EventView>::empty());
        Seq::empty()
    } else {
        let r0 = lemma_history_events_after(config, auths, hist, j, m - 1);
        lemma_history_views(config, auths, hist, m - 1);
        let w = lemma_wave_witness(config, auths, hist, m - 1);
        lemma_wave_views(config, auths, hist, m - 1, w);
        lemma_phase_times(config, m - 1);
        lemma_phase_time_monotone(config, j, m - 1);
        let r = r0 + w.1 + w.2 + w.3;
        assert(hist[m].1 == hist[j].1 + r);
        assert forall|i: int| 0 <= i < r.len() implies (#[trigger] r[i]).scheduled_at_ms >= phase_time(config, j, 0) by {
            let a = r0.len();
            let b = a + w.1.len();
            let c = b + w.2.len();
            if i < a {
                assert(r[i] == r0[i]);
            } else if i < b {
                assert(r[i] == w.1[i - a]);
            } else if i < c {
                assert(r[i] == w.2[i - b]);
            } else {
                assert(r[i] == w.3[i - c]);
            }
        }
        r
    }
}

/// In wave `s` of a complete run, the views hold what all of the run's events delivered by
/// the support and certificate deadlines.
proof fn lemma_wave_seen(config: SimulationConfig, auths: Seq<Authority>, hist: Seq<WaveState>, s: int) -> (w: WaveRun)
    requires
        config_fault(config) is None,
        waves_history(config, auths, hist),
        hist.len() == config.slots + 1,
        0 <= s < config.slots,
    ensures
        wave_run(config, auths, hist, s, w),
        w.0.len() == auths.len(),
        hist[s + 1].2.len() == auths.len(),
        forall|k: int| 0 <= k < auths.len() ==> (#[trigger] w.0[k]).to_set() == seen(hist.last().1, phase_time(config, s, 1), k),
        forall|k: int| 0 <= k < auths.len() ==> (#[trigger] hist[s + 1].2[k]).to_set() == seen(hist.last().1, phase_time(config, s, 2), k),
{
    lemma_history_views(config, auths, hist, s);
    let w = lemma_wave_witness(config, auths, hist, s);
    lemma_wave_views(config, auths, hist, s, w);
    lemma_history_views(config, auths, hist, s + 1);
    lemma_phase_times(config, s);
    let r = lemma_history_events_after(config, auths, hist, s + 1, hist.len() - 1);
    let e1 = hist[s].1 + w.1;
    let tail1 = w.2 + w.3 + r;
    assert(hist.last().1 == e1 + tail1);
    assert(sent_from_time(tail1, phase_time(config, s, 1))) by {
        assert forall|i: int| 0 <= i < tail1.len() implies (#[trigger] tail1[i]).scheduled_at_ms >= phase_time(config, s, 1) by {
            let a = w.2.len();
            let b = a + w.3.len();
            if i < a {
                assert(tail1[i] == w.2[i]);
            } else if i < b {
                assert(tail1[i] == w.3[i - a]);
            } else {
                assert(tail1[i] == r[i - b]);
            }
        }
    }
    let e2 = hist[s].1 + w.1 + w.2;
    let tail2 = w.3 + r;
    assert(hist.last().1 == e2 + tail2);
    assert(sent_from_time(tail2, phase_time(config, s, 2))) by {
        assert forall|i: int| 0 <= i < tail2.len() implies (#[trigger] tail2[i]).scheduled_at_ms >= phase_time(config, s, 2) by {
            if i < w.3.len() {
                assert(tail2[i] == w.3[i]);
            } else {
                assert(tail2[i] == r[i - w.3.len()]);
            }
        }
    }
    assert forall|k: int| 0 <= k < auths.len() implies (#[trigger] w.0[k]).to_set() == seen(hist.last().1, phase_time(config, s, 1), k) by {
        lemma_seen_late(e1, tail1, phase_time(config, s, 1), k);
    }
    assert forall|k: int| 0 <= k < auths.len() implies (#[trigger] hist[s + 1].2[k]).to_set() == seen(hist.last().1, phase_time(config, s, 2), k) by {
        lemma_seen_late(e2, tail2, phase_time(config, s, 2), k);
    }
    w
}


/// What a trace's events deliver is what its run's events deliver: the trace lists them
/// ordered and numbered.
proof fn lemma_trace_seen(t: Trace, config: SimulationConfig, hist: Seq<WaveState>, u: Seq<Event>, d: int, k: int)
    requires
        0 <= k,
        run_of(t, config, hist, u),
    ensures
        seen(event_views(t.events@), d, k) == seen(hist.last().1, d, k),
{
    broadcast use vstd::seq_lib::group_to_multiset_ensures;
    let et = event_views(t.events@);
    let eh = hist.last().1;
    let srt = stable_sorted(u);
    lemma_stable_sorted_elements(u);
    lemma_stable_sorted_multiset(u);
    assert(et.len() == u.len());
    assert forall|id: Seq<char>| seen(et, d, k).contains(id) <==> seen(eh, d, k).contains(id) by {
        if seen(et, d, k).contains(id) {
            let i = choose|i: int| 0 <= i < et.len() && #[trigger] et[i].block_id == id
                && et[i].status == EventStatus::Delivered && et[i].outcome_at_ms <= d
                && et[i].scheduled_at_ms < d && receiver_index(et[i].receiver) == Some(k as usize);
            assert(et[i] == t.events@[i]@);
            assert(t.events@[i]@ == numbered(srt[i]@, i as u64));
            assert(u.contains(srt[i]));
            let m = choose|m: int| 0 <= m < u.len() && u[m] == srt[i];
            assert(eh[m] == event_views(u)[m]);
            assert(eh[m] == u[m]@);
            assert(eh[m].block_id == et[i].block_id && eh[m].status == et[i].status && eh[m].outcome_at_ms == et[i].outcome_at_ms
                && eh[m].scheduled_at_ms == et[i].scheduled_at_ms && eh[m].receiver == et[i].receiver);
        }
        if seen(eh, d, k).contains(id) {
            let m = choose|m: int| 0 <= m < eh.len() && #[trigger] eh[m].block_id == id
                && eh[m].status == EventStatus::Delivered && eh[m].outcome_at_ms <= d
                && eh[m].scheduled_at_ms < d && receiver_index(eh[m].receiver) == Some(k as usize);
            assert(eh[m] == event_views(u)[m]);
            assert(event_views(u)[m] == u[m]@);
            assert(u.contains(u[m]));
            assert(u.to_multiset().count(u[m]) > 0);
            assert(srt.to_multiset().count(u[m]) > 0);
            assert(srt.contains(u[m]));
            let i = choose|i: int| 0 <= i < srt.len() && srt[i] == u[m];
            assert(t.events@[i]@ == numbered(srt[i]@, i as u64));
            assert(et[i] == t.events@[i]@);
            assert(eh[m].block_id == et[i].block_id && eh[m].status == et[i].status && eh[m].outcome_at_ms == et[i].outcome_at_ms
                && eh[m].scheduled_at_ms == et[i].scheduled_at_ms && eh[m].receiver == et[i].receiver);
        }
    }
    assert(seen(et, d, k) =~= seen(eh, d, k));
}

/// `x` is authored by one of the members `lo..hi`.
pub open spec fn authored_among(auths: Seq<Authority>, lo: int, hi: int, x: BlockView) -> bool {
    exists|j: int| lo <= j < hi && #[trigger] auths[j].id@ == x.author
}

/// Every block of `s` is authored by a member among `lo..hi`.
pub open spec fn by_members(s: Seq<BlockView>, auths: Seq<Authority>, lo: int, hi: int) -> bool {
    forall|k: int| 0 <= k < s.len() ==> authored_among(auths, lo, hi, #[trigger] s[k])
}

proof fn lemma_by_members_concat(a: Seq<BlockView>, b: Seq<BlockView>, auths: Seq<Authority>, lo: int, hi: int)
    requires
        by_members(a, auths, lo, hi),
        by_members(b, auths, lo, hi),
    ensures
        by_members(a + b, auths, lo, hi),
{
    assert forall|k: int| 0 <= k < (a + b).len() implies authored_among(auths, lo, hi, #[trigger] (a + b)[k]) by {
        if k < a.len() {
            assert((a + b)[k] == a[k]);
        } else {
            assert((a + b)[k] == b[k - a.len()]);
        }
    }
}

proof fn lemma_support_round_by(config: SimulationConfig, auths: Seq<Authority>, views: Seq<Seq<Seq<char>>>, known: Seq<BlockView>, slot: u32, rounds: WaveRounds, i0: int)
    requires
        0 <= i0,
    ensures
        by_members(support_round(config, auths, views, known, slot, rounds, i0), auths, i0, auths.len() as int),
    decreases auths.len() - i0,
{
    if i0 < auths.len() {
        let made = support_made(config, auths, views[i0], known, slot, rounds, i0);
        lemma_support_round_by(config, auths, views, known + made, slot, rounds, i0 + 1);
        assert forall|k: int| 0 <= k < made.len() implies authored_among(auths, i0, auths.len() as int, #[trigger] made[k]) by {
            assert(auths[i0].id@ == made[k].author);
        }
        let rest = support_round(config, auths, views, known + made, slot, rounds, i0 + 1);
        assert forall|k: int| 0 <= k < rest.len() implies authored_among(auths, i0, auths.len() as int, #[trigger] rest[k]) by {
            assert(authored_among(auths, i0 + 1, auths.len() as int, rest[k]));
            let j = choose|j: int| i0 + 1 <= j < auths.len() && #[trigger] auths[j].id@ == rest[k].author;
        }
        lemma_by_members_concat(made, rest, auths, i0, auths.len() as int);
    }
}

proof fn lemma_certificate_round_by(config: SimulationConfig, auths: Seq<Authority>, views: Seq<Seq<Seq<char>>>, known: Seq<BlockView>, slot: u32, rounds: WaveRounds, i0: int)
    requires
        0 <= i0,
    ensures
        by_members(certificate_round(config, auths, views, known, slot, rounds, i0), auths, i0, auths.len() as int),
    decreases auths.len() - i0,
{
    if i0 < auths.len() {
        let made = certificates_made(config, auths, views[i0], known, slot, rounds, i0);
        lemma_certificate_round_by(config, auths, views, known + made, slot, rounds, i0 + 1);
        assert forall|k: int| 0 <= k < made.len() implies authored_among(auths, i0, auths.len() as int, #[trigger] made[k]) by {
            assert(auths[i0].id@ == made[k].author);
        }
        let rest = certificate_round(config, auths, views, known + made, slot, rounds, i0 + 1);
        assert forall|k: int| 0 <= k < rest.len() implies authored_among(auths, i0, auths.len() as int, #[trigger] rest[k]) by {
            assert(authored_among(auths, i0 + 1, auths.len() as int, rest[k]));
            let j = choose|j: int| i0 + 1 <= j < auths.len() && #[trigger] auths[j].id@ == rest[k].author;
        }
        lemma_by_members_concat(made, rest, auths, i0, auths.len() as int);
    }
}

/// The support round split at member `i`: the blocks of the members before it, its own,
/// and those of the members after it.
proof fn lemma_support_split(config: SimulationConfig, auths: Seq<Authority>, views: Seq<Seq<Seq<char>>>, known: Seq<BlockView>, slot: u32, rounds: WaveRounds, i0: int, i: int) -> (q: Seq<BlockView>)
    requires
        0 <= i0 <= i < auths.len(),
    ensures
        support_round(config, auths, views, known, slot, rounds, i0) == q + support_made(config, auths, views[i], known + q, slot, rounds, i)
            + support_round(config, auths, views, known + q + support_made(config, auths, views[i], known + q, slot, rounds, i), slot, rounds, i + 1),
        by_members(q, auths, i0, i),
    decreases i - i0,
{
    let made0 = support_made(config, auths, views[i0], known, slot, rounds, i0);
    if i0 == i {
        assert(known + Seq::<BlockView>::empty() == known);
        assert(Seq::<BlockView>::empty() + made0 == made0);
        Seq::empty()
    } else {
        let q1 = lemma_support_split(config, auths, views, known + made0, slot, rounds, i0 + 1, i);
        let q = made0 + q1;
        assert(known + made0 + q1 == known + q);
        let made_i = support_made(config, auths, views[i], known + q, slot, rounds, i);
        let rest = support_round(config, auths, views, known + q + made_i, slot, rounds, i + 1);
        assert(made0 + (q1 + made_i + rest) == q + made_i + rest);
        assert forall|k: int| 0 <= k < made0.len() implies authored_among(auths, i0, i, #[trigger] made0[k]) by {
            assert(auths[i0].id@ == made0[k].author);
        }
        assert forall|k: int| 0 <= k < q1.len() implies authored_among(auths, i0, i, #[trigger] q1[k]) by {
            assert(authored_among(auths, i0 + 1, i, q1[k]));
            let j = choose|j: int| i0 + 1 <= j < i && #[trigger] auths[j].id@ == q1[k].author;
        }
        lemma_by_members_concat(made0, q1, auths, i0, i);
        q
    }
}

/// The certificate round split at member `i`.
proof fn lemma_certificate_split(config: SimulationConfig, auths: Seq<Authority>, views: Seq<Seq<Seq<char>>>, known: Seq<BlockView>, slot: u32, rounds: WaveRounds, i0: int, i: int) -> (q: Seq<BlockView>)
    requires
        0 <= i0 <= i < auths.len(),
    ensures
        certificate_round(config, auths, views, known, slot, rounds, i0) == q + certificates_made(config, auths, views[i], known + q, slot, rounds, i)
            + certificate_round(config, auths, views, known + q + certificates_made(config, auths, views[i], known + q, slot, rounds, i), slot, rounds, i + 1),
        by_members(q, auths, i0, i),
    decreases i - i0,
{
    let made0 = certificates_made(config, auths, views[i0], known, slot, rounds, i0);
    if i0 == i {
        assert(known + Seq::<BlockView>::empty() == known);
        assert(Seq::<BlockView>::empty() + made0 == made0);
        Seq::empty()
    } else {
        let q1 = lemma_certificate_split(config, auths, views, known + made0, slot, rounds, i0 + 1, i);
        let q = made0 + q1;
        assert(known + made0 + q1 == known + q);
        let made_i = certificates_made(config, auths, views[i], known + q, slot, rounds, i);
        let rest = certificate_round(config, auths, views, known + q + made_i, slot, rounds, i + 1);
        assert(made0 + (q1 + made_i + rest) == q + made_i + rest);
        assert forall|k: int| 0 <= k < made0.len() implies authored_among(auths, i0, i, #[trigger] made0[k]) by {
            assert(auths[i0].id@ == made0[k].author);
        }
        assert forall|k: int| 0 <= k < q1.len() implies authored_among(auths, i0, i, #[trigger] q1[k]) by {
            assert(authored_among(auths, i0 + 1, i, q1[k]));
            let j = choose|j: int| i0 + 1 <= j < i && #[trigger] auths[j].id@ == q1[k].author;
        }
        lemma_by_members_concat(made0, q1, auths, i0, i);
        q
    }
}


/// The proposals of wave `s`.
spec fn wave_p(config: SimulationConfig, auths: Seq<Authority>, s: int) -> Seq<BlockView> {
    proposals_of(config, auths, s as u32, spec_wave_rounds(s as u32).proposal)
}

/// The support blocks of wave `s` of a history, run with the witnesses `w`.
spec fn wave_sr(config: SimulationConfig, auths: Seq<Authority>, hist: Seq<WaveState>, s: int, w: WaveRun) -> Seq<BlockView> {
    support_round(config, auths, w.0, hist[s].0 + wave_p(config, auths, s), s as u32, spec_wave_rounds(s as u32), 0)
}

/// The certificate blocks of wave `s` of a history, run with the witnesses `w`.
spec fn wave_cr(config: SimulationConfig, auths: Seq<Authority>, hist: Seq<WaveState>, s: int, w: WaveRun) -> Seq<BlockView> {
    certificate_round(config, auths, hist[s + 1].2, hist[s].0 + wave_p(config, auths, s) + wave_sr(config, auths, hist, s, w),
        s as u32, spec_wave_rounds(s as u32), 0)
}

/// The blocks of a history from state `j` on all sit in slots from `j` on.
proof fn lemma_history_blocks_after(config: SimulationConfig, auths: Seq<Authority>, hist: Seq<WaveState>, j: int, m: int) -> (r: Seq<BlockView>)
    requires
        config_fault(config) is None,
        waves_history(config, auths, hist),
        0 <= j <= m < hist.len(),
        hist.len() <= config.slots + 1,
        auths.len() > 0,
    ensures
        hist[m].0 == hist[j].0 + r,
        forall|k: int| 0 <= k < r.len() ==> (#[trigger] r[k]).slot >= j,
    decreases m - j,
{
    if m == j {
        assert(hist[m].0 == hist[j].0 + Seq::<BlockView>::empty());
        Seq::empty()
    } else {
        let r0 = lemma_history_blocks_after(config, auths, hist, j, m - 1);
        lemma_phase_times(config, m - 1);
        lemma_wave_adds(config, auths, hist, m - 1);
        let w = choose|w: Seq<BlockView>| hist[m].0 == hist[m - 1].0 + w && #[trigger] all_issued_wave(config, auths, w, (m - 1) as u32);
        let r = r0 + w;
        assert(hist[m].0 == hist[j].0 + r);
        assert forall|k: int| 0 <= k < r.len() implies (#[trigger] r[k]).slot >= j by {
            if k < r0.len() {
                assert(r[k] == r0[k]);
            } else {
                assert(r[k] == w[k - r0.len()]);
            }
        }
        r
    }
}

/// Where the blocks of wave `s` sit among all the blocks of a complete run.
proof fn lemma_slot_blocks(config: SimulationConfig, auths: Seq<Authority>, hist: Seq<WaveState>, s: int, w: WaveRun) -> (r: Seq<BlockView>)
    requires
        config_fault(config) is None,
        waves_history(config, auths, hist),
        hist.len() == config.slots + 1,
        0 <= s < config.slots,
        auths.len() > 0,
        wave_run(config, auths, hist, s, w),
    ensures
        hist.last().0 == hist[s].0 + wave_p(config, auths, s) + wave_sr(config, auths, hist, s, w) + wave_cr(config, auths, hist, s, w) + r,
        forall|k: int| 0 <= k < hist[s].0.len() ==> (#[trigger] hist[s].0[k]).slot < s,
        forall|k: int| 0 <= k < r.len() ==> (#[trigger] r[k]).slot > s,
        all_issued(config, auths, wave_p(config, auths, s), s as u32, 3 * s),
        all_issued(config, auths, wave_sr(config, auths, hist, s, w), s as u32, 3 * s + 1),
        all_issued(config, auths, wave_cr(config, auths, hist, s, w), s as u32, 3 * s + 2),
{
    lemma_phase_times(config, s);
    lemma_history_issued(config, auths, hist, s);
    let r = lemma_history_blocks_after(config, auths, hist, s + 1, hist.len() - 1);
    lemma_proposals_issued(config, auths, s as u32);
    lemma_support_round_issued(config, auths, w.0, hist[s].0 + wave_p(config, auths, s), s as u32, 0);
    lemma_certificate_round_issued(config, auths, hist[s + 1].2, hist[s].0 + wave_p(config, auths, s) + wave_sr(config, auths, hist, s, w), s as u32, 0);
    r
}

/// `known` records under `id` a block at `slot` and `round`, latest last.
pub open spec fn latest_at(known: Seq<BlockView>, id: Seq<char>, slot: u32, round: u32) -> bool {
    latest_with_id(known, id) matches Some(b) && b.slot == slot && b.round == round
}

/// The ids that `phase_ids` keeps: those of the view whose latest recorded block sits at the
/// slot and round.
proof fn lemma_phase_ids_set(view: Seq<Seq<char>>, known: Seq<BlockView>, slot: u32, round: u32)
    ensures
        forall|x: Seq<char>| #[trigger] phase_ids(view, known, slot, round).contains(x) <==> view.contains(x) && latest_at(known, x, slot, round),
    decreases view.len(),
{
    if view.len() > 0 {
        let d = view.drop_last();
        lemma_phase_ids_set(d, known, slot, round);
        let rest = phase_ids(d, known, slot, round);
        assert forall|x: Seq<char>| #[trigger] phase_ids(view, known, slot, round).contains(x) <==> view.contains(x) && latest_at(known, x, slot, round) by {
            assert(view == d.push(view.last()));
            assert(view.contains(x) <==> d.contains(x) || x == view.last()) by {
                if view.contains(x) {
                    let k = choose|k: int| 0 <= k < view.len() && view[k] == x;
                    if k < d.len() {
                        assert(d[k] == x);
                    }
                }
                if d.contains(x) {
                    let k = choose|k: int| 0 <= k < d.len() && d[k] == x;
                    assert(view[k] == x);
                }
                assert(view[view.len() - 1] == view.last());
            }
            if latest_at(known, view.last(), slot, round) {
                let r2 = rest.push(view.last());
                assert(r2.contains(x) <==> rest.contains(x) || x == view.last()) by {
                    if r2.contains(x) {
                        let k = choose|k: int| 0 <= k < r2.len() && r2[k] == x;
                        if k < rest.len() {
                            assert(rest[k] == x);
                        }
                    }
                    if rest.contains(x) {
                        let k = choose|k: int| 0 <= k < rest.len() && rest[k] == x;
                        assert(r2[k] == x);
                    }
                    assert(r2[rest.len() as int] == view.last());
                }
            }
        }
    }
}

/// A recorded id has a latest block, which is recorded.
proof fn lemma_latest_some(known: Seq<BlockView>, m: int)
    requires
        0 <= m < known.len(),
    ensures
        latest_with_id(known, known[m].id) is Some,
    decreases known.len(),
{
    if known.last().id != known[m].id {
        assert(m < known.len() - 1);
        assert(known.drop_last()[m] == known[m]);
        lemma_latest_some(known.drop_last(), m);
    }
}

/// Two blocks of `s` with one id share author, round, slot and variant, unless ids collide.
proof fn lemma_same_id_same_identity(s: Seq<BlockView>, a: int, b: int)
    requires
        !ids_collide(s),
        0 <= a < s.len(),
        0 <= b < s.len(),
        s[a].id == s[b].id,
    ensures
        identity_of(s[a]) == identity_of(s[b]),
{
    if a < b {
        assert(!(s[a].id == s[b].id && identity_of(s[a]) != identity_of(s[b])));
    } else if b < a {
        assert(!(s[b].id == s[a].id && identity_of(s[b]) != identity_of(s[a])));
    }
}


/// Ids of the blocks of `blocks` at `slot` and `round`.
pub open spec fn ids_at(blocks: Seq<BlockView>, slot: int, round: int) -> Set<Seq<char>> {
    Set::new(|id: Seq<char>| exists|j: int| 0 <= j < blocks.len() && #[trigger] blocks[j].id == id
        && blocks[j].slot == slot && blocks[j].round == round)
}

/// The proposals of `slot` delivered to member `i` of a trace by the support deadline.
pub open spec fn proposals_seen(t: Trace, config: SimulationConfig, slot: int, i: int) -> Set<Seq<char>> {
    seen(event_views(t.events@), phase_time(config, slot, 1), i).intersect(ids_at(block_views(t.blocks@), slot, 3 * slot))
}

/// The support blocks of `slot` delivered to member `i` of a trace by the certificate deadline.
pub open spec fn support_seen(t: Trace, config: SimulationConfig, slot: int, i: int) -> Set<Seq<char>> {
    seen(event_views(t.events@), phase_time(config, slot, 2), i).intersect(ids_at(block_views(t.blocks@), slot, 3 * slot + 1))
}

/// `x` is a block of member `i` (`authority-i`) at `slot` and `round`.
pub open spec fn issued_by(x: BlockView, i: int, slot: int, round: int) -> bool {
    &&& x.author == authority_name(i as nat)
    &&& x.slot == slot
    &&& x.round == round
}

/// With the blocks at `slot` and `round` all in a prefix `known` of `b`, the latest
/// recorded block of an id sits there exactly when `b` has a block of that id there.
proof fn lemma_latest_iff(b: Seq<BlockView>, known: Seq<BlockView>, slot: u32, round: u32)
    requires
        !ids_collide(b),
        known.len() <= b.len(),
        forall|m: int| 0 <= m < known.len() ==> known[m] == b[m],
        forall|j: int| 0 <= j < b.len() && b[j].slot == slot && b[j].round == round ==> j < known.len(),
    ensures
        forall|x: Seq<char>| #[trigger] latest_at(known, x, slot, round) <==> ids_at(b, slot as int, round as int).contains(x),
{
    assert forall|x: Seq<char>| #[trigger] latest_at(known, x, slot, round) <==> ids_at(b, slot as int, round as int).contains(x) by {
        crate::simulator::lemma_latest_with_id_known(known, x);
        if latest_at(known, x, slot, round) {
            let lb = latest_with_id(known, x)->Some_0;
            let m = choose|m: int| 0 <= m < known.len() && known[m] == lb && lb.id == x;
            assert(b[m] == lb);
        }
        if ids_at(b, slot as int, round as int).contains(x) {
            let j = choose|j: int| 0 <= j < b.len() && #[trigger] b[j].id == x && b[j].slot == slot && b[j].round == round;
            assert(known[j] == b[j]);
            lemma_latest_some(known, j);
            let lb = latest_with_id(known, x)->Some_0;
            let m = choose|m: int| 0 <= m < known.len() && known[m] == lb && lb.id == x;
            assert(b[m] == lb);
            lemma_same_id_same_identity(b, m, j);
        }
    }
}

/// Blocks of the run of a simulated trace: its committee, its history and its last wave.
proof fn lemma_trace_run(t: Trace, config: SimulationConfig) -> (hu: (Seq<WaveState>, Seq<Event>))
    requires
        simulated_trace(t, config),
    ensures
        run_of(t, config, hu.0, hu.1),
        config_fault(config) is None,
        t.committee@.len() == config.stakes@.len(),
        t.committee@.len() > 0,
        ids_distinct(t.committee@),
        forall|i: int| 0 <= i < t.committee@.len() ==> #[trigger] t.committee@[i].id@ == authority_name(i as nat),
{
    lemma_trace_members(t, config);
    let (hist, u) = choose|hist: Seq<WaveState>, u: Seq<Event>| #[trigger] run_of(t, config, hist, u);
    (hist, u)
}

/// Member `i`'s support blocks in wave `s`: its blocks there are exactly those it issues
/// over the view it had at the support deadline, whose proposals are those it saw.
proof fn lemma_member_support(t: Trace, config: SimulationConfig, s: int, i: int) -> (vk: (Seq<Seq<char>>, Seq<BlockView>))
    requires
        simulated_trace(t, config),
        !ids_collide(block_views(t.blocks@)),
        0 <= s < config.slots,
        0 <= i < t.committee@.len(),
    ensures
        crate::lexical::strictly_ascending(vk.0),
        forall|x: Seq<char>| #[trigger] phase_ids(vk.0, vk.1, s as u32, spec_wave_rounds(s as u32).proposal).contains(x)
            <==> proposals_seen(t, config, s, i).contains(x),
        forall|j: int| 0 <= j < t.blocks@.len() ==> (issued_by(#[trigger] block_views(t.blocks@)[j], i, s, 3 * s + 1)
            <==> support_made(config, t.committee@, vk.0, vk.1, s as u32, spec_wave_rounds(s as u32), i).contains(block_views(t.blocks@)[j])),
        forall|k: int| 0 <= k < support_made(config, t.committee@, vk.0, vk.1, s as u32, spec_wave_rounds(s as u32), i).len()
            ==> block_views(t.blocks@).contains(#[trigger] support_made(config, t.committee@, vk.0, vk.1, s as u32, spec_wave_rounds(s as u32), i)[k]),
        spec_wave_rounds(s as u32).proposal == 3 * s,
        spec_wave_rounds(s as u32).support == 3 * s + 1,
{
    let (hist, u) = lemma_trace_run(t, config);
    let a = t.committee@;
    let b = block_views(t.blocks@);
    lemma_phase_times(config, s);
    let w = lemma_wave_seen(config, a, hist, s);
    let r = lemma_slot_blocks(config, a, hist, s, w);
    let rounds = spec_wave_rounds(s as u32);
    let h = hist[s].0;
    let p = wave_p(config, a, s);
    let sr = wave_sr(config, a, hist, s, w);
    let cr = wave_cr(config, a, hist, s, w);
    let q = lemma_support_split(config, a, w.0, h + p, s as u32, rounds, 0, i);
    let known = h + p + q;
    let made = support_made(config, a, w.0[i], known, s as u32, rounds, i);
    let rest = support_round(config, a, w.0, known + made, s as u32, rounds, i + 1);
    lemma_support_round_by(config, a, w.0, known + made, s as u32, rounds, i + 1);
    assert(b == known + made + rest + cr + r);
    assert(wave_trace(config, a, s as u32, hist[s].0, hist[s].1, hist[s].2, w.0, w.1, w.2, w.3,
        hist[s + 1].0, hist[s + 1].1, hist[s + 1].2, hist[s].3, hist[s + 1].3));
    assert(crate::lexical::strictly_ascending(w.0[i]));
    // the proposals seen
    assert forall|j: int| 0 <= j < b.len() && b[j].slot == s as u32 && b[j].round == rounds.proposal implies j < known.len() by {
        let n0 = h.len();
        let n1 = n0 + p.len();
        let n2 = n1 + sr.len();
        let n3 = n2 + cr.len();
        assert(b == h + p + sr + cr + r);
        if j < n0 {
            assert(b[j] == h[j]);
        } else if j < n1 {
        } else if j < n2 {
            assert(b[j] == sr[j - n1]);
        } else if j < n3 {
            assert(b[j] == cr[j - n2]);
        } else {
            assert(b[j] == r[j - n3]);
        }
    }
    assert forall|m: int| 0 <= m < known.len() implies known[m] == b[m] by {}
    lemma_latest_iff(b, known, s as u32, rounds.proposal);
    lemma_phase_ids_set(w.0[i], known, s as u32, rounds.proposal);
    lemma_trace_seen(t, config, hist, u, phase_time(config, s, 1), i);
    assert forall|x: Seq<char>| #[trigger] phase_ids(w.0[i], known, s as u32, rounds.proposal).contains(x)
        <==> proposals_seen(t, config, s, i).contains(x) by {
        assert(w.0[i].contains(x) <==> w.0[i].to_set().contains(x));
    }
    // the member's blocks
    assert forall|k: int| 0 <= k < made.len() implies (#[trigger] made[k]).author == a[i].id@ by {}
    assert forall|j: int| 0 <= j < t.blocks@.len() implies (issued_by(#[trigger] b[j], i, s, 3 * s + 1) <==> made.contains(b[j])) by {
        let n0 = known.len();
        let n1 = n0 + made.len();
        let n2 = n1 + rest.len();
        let n3 = n2 + cr.len();
        if issued_by(b[j], i, s, 3 * s + 1) {
            assert(b[j].author == a[i].id@);
            if j < h.len() {
                assert(b[j] == h[j]);
            } else if j < h.len() + p.len() {
                assert(b[j] == p[j - h.len()]);
            } else if j < n0 {
                assert(b[j] == q[j - h.len() - p.len()]);
                assert(authored_among(a, 0, i, q[j - h.len() - p.len()]));
                let x = choose|x: int| 0 <= x < i && #[trigger] a[x].id@ == q[j - h.len() - p.len()].author;
                assert(a[x].id@ != a[i].id@);
            } else if j < n1 {
                assert(b[j] == made[j - n0]);
            } else if j < n2 {
                assert(b[j] == rest[j - n1]);
                assert(authored_among(a, i + 1, a.len() as int, rest[j - n1]));
                let x = choose|x: int| i + 1 <= x < a.len() && #[trigger] a[x].id@ == rest[j - n1].author;
                assert(a[i].id@ != a[x].id@);
            } else if j < n3 {
                assert(b[j] == cr[j - n2]);
            } else {
                assert(b[j] == r[j - n3]);
            }
        }
        if made.contains(b[j]) {
            let k = choose|k: int| 0 <= k < made.len() && made[k] == b[j];
            assert(sr == q + made + rest);
            assert(sr[q.len() + k] == made[k]);
        }
    }
    assert forall|k: int| 0 <= k < made.len() implies b.contains(#[trigger] made[k]) by {
        assert(b[known.len() + k] == made[k]);
    }
    (w.0[i], known)
}


/// Member `i`'s certificate blocks in wave `s`: its blocks there are exactly those it
/// issues over the view it had at the certificate deadline, whose support blocks are those
/// it saw.
proof fn lemma_member_certificates(t: Trace, config: SimulationConfig, s: int, i: int) -> (vk: (Seq<Seq<char>>, Seq<BlockView>))
    requires
        simulated_trace(t, config),
        !ids_collide(block_views(t.blocks@)),
        0 <= s < config.slots,
        0 <= i < t.committee@.len(),
    ensures
        crate::lexical::strictly_ascending(vk.0),
        forall|x: Seq<char>| #[trigger] phase_ids(vk.0, vk.1, s as u32, spec_wave_rounds(s as u32).support).contains(x)
            <==> support_seen(t, config, s, i).contains(x),
        forall|j: int| 0 <= j < t.blocks@.len() ==> (issued_by(#[trigger] block_views(t.blocks@)[j], i, s, 3 * s + 2)
            <==> certificates_made(config, t.committee@, vk.0, vk.1, s as u32, spec_wave_rounds(s as u32), i).contains(block_views(t.blocks@)[j])),
        forall|k: int| 0 <= k < certificates_made(config, t.committee@, vk.0, vk.1, s as u32, spec_wave_rounds(s as u32), i).len()
            ==> block_views(t.blocks@).contains(#[trigger] certificates_made(config, t.committee@, vk.0, vk.1, s as u32, spec_wave_rounds(s as u32), i)[k]),
        spec_wave_rounds(s as u32).support == 3 * s + 1,
        spec_wave_rounds(s as u32).certificate == 3 * s + 2,
{
    let (hist, u) = lemma_trace_run(t, config);
    let a = t.committee@;
    let b = block_views(t.blocks@);
    lemma_phase_times(config, s);
    let w = lemma_wave_seen(config, a, hist, s);
    let r = lemma_slot_blocks(config, a, hist, s, w);
    let rounds = spec_wave_rounds(s as u32);
    let h = hist[s].0;
    let p = wave_p(config, a, s);
    let sr = wave_sr(config, a, hist, s, w);
    let cr = wave_cr(config, a, hist, s, w);
    let views = hist[s + 1].2;
    let q = lemma_certificate_split(config, a, views, h + p + sr, s as u32, rounds, 0, i);
    let known = h + p + sr + q;
    let made = certificates_made(config, a, views[i], known, s as u32, rounds, i);
    let rest = certificate_round(config, a, views, known + made, s as u32, rounds, i + 1);
    lemma_certificate_round_by(config, a, views, known + made, s as u32, rounds, i + 1);
    assert(b == known + made + rest + r);
    assert(wave_trace(config, a, s as u32, hist[s].0, hist[s].1, hist[s].2, w.0, w.1, w.2, w.3,
        hist[s + 1].0, hist[s + 1].1, hist[s + 1].2, hist[s].3, hist[s + 1].3));
    assert(crate::lexical::strictly_ascending(views[i]));
    assert forall|j: int| 0 <= j < b.len() && b[j].slot == s as u32 && b[j].round == rounds.support implies j < known.len() by {
        let n0 = h.len();
        let n2 = n0 + p.len() + sr.len();
        let n3 = n2 + cr.len();
        assert(b == h + p + sr + cr + r);
        if j < n0 {
            assert(b[j] == h[j]);
        } else if j < n2 {
        } else if j < n3 {
            assert(b[j] == cr[j - n2]);
        } else {
            assert(b[j] == r[j - n3]);
        }
    }
    assert forall|m: int| 0 <= m < known.len() implies known[m] == b[m] by {}
    lemma_latest_iff(b, known, s as u32, rounds.support);
    lemma_phase_ids_set(views[i], known, s as u32, rounds.support);
    lemma_trace_seen(t, config, hist, u, phase_time(config, s, 2), i);
    assert forall|x: Seq<char>| #[trigger] phase_ids(views[i], known, s as u32, rounds.support).contains(x)
        <==> support_seen(t, config, s, i).contains(x) by {
        assert(views[i].contains(x) <==> views[i].to_set().contains(x));
    }
    assert forall|k: int| 0 <= k < made.len() implies (#[trigger] made[k]).author == a[i].id@ by {}
    assert forall|j: int| 0 <= j < t.blocks@.len() implies (issued_by(#[trigger] b[j], i, s, 3 * s + 2) <==> made.contains(b[j])) by {
        let n0 = known.len();
        let n1 = n0 + made.len();
        let n2 = n1 + rest.len();
        if issued_by(b[j], i, s, 3 * s + 2) {
            assert(b[j].author == a[i].id@);
            if j < h.len() {
                assert(b[j] == h[j]);
            } else if j < h.len() + p.len() {
                assert(b[j] == p[j - h.len()]);
            } else if j < h.len() + p.len() + sr.len() {
                assert(b[j] == sr[j - h.len() - p.len()]);
            } else if j < n0 {
                assert(b[j] == q[j - h.len() - p.len() - sr.len()]);
                assert(authored_among(a, 0, i, q[j - h.len() - p.len() - sr.len()]));
                let x = choose|x: int| 0 <= x < i && #[trigger] a[x].id@ == q[j - h.len() - p.len() - sr.len()].author;
                assert(a[x].id@ != a[i].id@);
            } else if j < n1 {
                assert(b[j] == made[j - n0]);
            } else if j < n2 {
                assert(b[j] == rest[j - n1]);
                assert(authored_among(a, i + 1, a.len() as int, rest[j - n1]));
                let x = choose|x: int| i + 1 <= x < a.len() && #[trigger] a[x].id@ == rest[j - n1].author;
                assert(a[i].id@ != a[x].id@);
            } else {
                assert(b[j] == r[j - n2]);
            }
        }
        if made.contains(b[j]) {
            let k = choose|k: int| 0 <= k < made.len() && made[k] == b[j];
            assert(cr == q + made + rest);
            assert(cr[q.len() + k] == made[k]);
        }
    }
    assert forall|k: int| 0 <= k < made.len() implies b.contains(#[trigger] made[k]) by {
        assert(b[known.len() + k] == made[k]);
    }
    (views[i], known)
}


/// Member `i` is a configured Byzantine member that saw two different proposals of `slot`
/// by the support deadline.
pub open spec fn equivocates(t: Trace, config: SimulationConfig, slot: int, i: int) -> bool {
    &&& config.byzantine_authorities@.contains(i as u32)
    &&& exists|x: Seq<char>, y: Seq<char>| #[trigger] proposals_seen(t, config, slot, i).contains(x)
        && #[trigger] proposals_seen(t, config, slot, i).contains(y) && x != y
}

/// A strictly ascending sequence has two different elements exactly when it has two.
proof fn lemma_two_distinct(av: Seq<Seq<char>>)
    requires
        crate::lexical::strictly_ascending(av),
    ensures
        av.len() > 1 <==> exists|x: Seq<char>, y: Seq<char>| #[trigger] av.contains(x) && #[trigger] av.contains(y) && x != y,
{
    if av.len() > 1 {
        assert(crate::lexical::text_lt(av[0], av[1]));
        crate::lexical::lemma_text_lt_irreflexive(av[0]);
        assert(av.contains(av[0]) && av.contains(av[1]));
    }
    if exists|x: Seq<char>, y: Seq<char>| #[trigger] av.contains(x) && #[trigger] av.contains(y) && x != y {
        let (x, y) = choose|x: Seq<char>, y: Seq<char>| #[trigger] av.contains(x) && #[trigger] av.contains(y) && x != y;
        let kx = choose|k: int| 0 <= k < av.len() && av[k] == x;
        let ky = choose|k: int| 0 <= k < av.len() && av[k] == y;
        assert(kx != ky);
    }
}

proof fn lemma_support_none(t: Trace, config: SimulationConfig, s: int, i: int)
    requires
        simulated_trace(t, config),
        !ids_collide(block_views(t.blocks@)),
        0 <= s < config.slots,
        0 <= i < config.stakes@.len(),
    ensures
        (forall|x: Seq<char>| !proposals_seen(t, config, s, i).contains(x))
            ==> forall|j: int| 0 <= j < t.blocks@.len() ==> !issued_by(#[trigger] block_views(t.blocks@)[j], i, s, 3 * s + 1),
{
    lemma_trace_members(t, config);
    let a = t.committee@;
    let b = block_views(t.blocks@);
    let (view, known) = lemma_member_support(t, config, s, i);
    let rounds = spec_wave_rounds(s as u32);
    let av = phase_ids(view, known, s as u32, rounds.proposal);
    let made = support_made(config, a, view, known, s as u32, rounds, i);
    let ps = proposals_seen(t, config, s, i);
    let byz = config.byzantine_authorities@.contains(i as u32);
    crate::simulator::lemma_phase_ids_ascending(view, known, s as u32, rounds.proposal);
    lemma_two_distinct(av);
    assert(a[i].id@ == authority_name(i as nat));
    if forall|x: Seq<char>| !ps.contains(x) {
        if av.len() > 0 {
            assert(av.contains(av[0]));
        }
        assert(made.len() == 0);
    }
}

proof fn lemma_support_single(t: Trace, config: SimulationConfig, s: int, i: int)
    requires
        simulated_trace(t, config),
        !ids_collide(block_views(t.blocks@)),
        0 <= s < config.slots,
        0 <= i < config.stakes@.len(),
    ensures
        live(config, i) && !equivocates(t, config, s, i) && (exists|x: Seq<char>| proposals_seen(t, config, s, i).contains(x)) ==> {
            &&& exists|j: int| 0 <= j < t.blocks@.len() && issued_by(#[trigger] block_views(t.blocks@)[j], i, s, 3 * s + 1)
            &&& forall|j: int| 0 <= j < t.blocks@.len() && issued_by(#[trigger] block_views(t.blocks@)[j], i, s, 3 * s + 1)
                ==> block_views(t.blocks@)[j].variant == 0 && block_views(t.blocks@)[j].parents.to_set() == proposals_seen(t, config, s, i)
        },
{
    lemma_trace_members(t, config);
    let a = t.committee@;
    let b = block_views(t.blocks@);
    let (view, known) = lemma_member_support(t, config, s, i);
    let rounds = spec_wave_rounds(s as u32);
    let av = phase_ids(view, known, s as u32, rounds.proposal);
    let made = support_made(config, a, view, known, s as u32, rounds, i);
    let ps = proposals_seen(t, config, s, i);
    let byz = config.byzantine_authorities@.contains(i as u32);
    crate::simulator::lemma_phase_ids_ascending(view, known, s as u32, rounds.proposal);
    lemma_two_distinct(av);
    assert(a[i].id@ == authority_name(i as nat));
    if live(config, i) && !equivocates(t, config, s, i) && (exists|x: Seq<char>| ps.contains(x)) {
        let x = choose|x: Seq<char>| ps.contains(x);
        assert(av.contains(x));
        assert(!(byz && av.len() > 1)) by {
            if byz && av.len() > 1 {
                let (y, z) = choose|y: Seq<char>, z: Seq<char>| #[trigger] av.contains(y) && #[trigger] av.contains(z) && y != z;
                assert(ps.contains(y) && ps.contains(z));
            }
        }
        assert(made.len() == 1);
        assert(av.to_set() =~= ps) by {
            assert forall|y: Seq<char>| av.to_set().contains(y) <==> ps.contains(y) by {}
        }
        assert(b.contains(made[0]));
        let j = choose|j: int| 0 <= j < b.len() && b[j] == made[0];
        assert(made.contains(b[j]));
        assert(issued_by(b[j], i, s, 3 * s + 1));
        assert forall|j: int| 0 <= j < t.blocks@.len() && issued_by(#[trigger] b[j], i, s, 3 * s + 1)
            implies b[j].variant == 0 && b[j].parents.to_set() == ps by {
            assert(made.contains(b[j]));
            let k = choose|k: int| 0 <= k < made.len() && made[k] == b[j];
        }
    }
}

/// Each proposal an equivocating member saw has a support block of its own.
#[verifier::spinoff_prover]
proof fn lemma_equivocating_covers(b: Seq<BlockView>, av: Seq<Seq<char>>, made: Seq<BlockView>, ps: Set<Seq<char>>, i: int, s: int)
    requires
        crate::lexical::strictly_ascending(av),
        made.len() == av.len(),
        forall|k: int| 0 <= k < made.len() ==> (#[trigger] made[k]).parents == seq![av[k]],
        forall|x: Seq<char>| ps.contains(x) <==> av.contains(x),
        forall|j: int| 0 <= j < b.len() ==> (issued_by(#[trigger] b[j], i, s, 3 * s + 1) <==> made.contains(b[j])),
        forall|k: int| 0 <= k < made.len() ==> b.contains(#[trigger] made[k]),
        crate::sorting::keys_distinct(b, |b: BlockView| identity_of(b)),
    ensures
        forall|x: Seq<char>| #[trigger] ps.contains(x) ==> exists|j: int| 0 <= j < b.len()
            && issued_by(#[trigger] b[j], i, s, 3 * s + 1) && b[j].parents == seq![x],
{
    assert forall|x: Seq<char>| #[trigger] ps.contains(x) implies exists|j: int| 0 <= j < b.len()
        && issued_by(#[trigger] b[j], i, s, 3 * s + 1) && b[j].parents == seq![x] by {
        let k = choose|k: int| 0 <= k < av.len() && av[k] == x;
        assert(b.contains(made[k]));
        let j = choose|j: int| 0 <= j < b.len() && b[j] == made[k];
        assert(made.contains(b[j]));
    }
}

/// Each support block of an equivocating member is over one proposal it saw.
#[verifier::spinoff_prover]
proof fn lemma_equivocating_single_parent(b: Seq<BlockView>, av: Seq<Seq<char>>, made: Seq<BlockView>, ps: Set<Seq<char>>, i: int, s: int)
    requires
        crate::lexical::strictly_ascending(av),
        made.len() == av.len(),
        forall|k: int| 0 <= k < made.len() ==> (#[trigger] made[k]).parents == seq![av[k]],
        forall|x: Seq<char>| ps.contains(x) <==> av.contains(x),
        forall|j: int| 0 <= j < b.len() ==> (issued_by(#[trigger] b[j], i, s, 3 * s + 1) <==> made.contains(b[j])),
        forall|k: int| 0 <= k < made.len() ==> b.contains(#[trigger] made[k]),
        crate::sorting::keys_distinct(b, |b: BlockView| identity_of(b)),
    ensures
        forall|j: int| 0 <= j < b.len() && issued_by(#[trigger] b[j], i, s, 3 * s + 1)
            ==> exists|x: Seq<char>| ps.contains(x) && b[j].parents == seq![x],
{
    assert forall|j: int| 0 <= j < b.len() && issued_by(#[trigger] b[j], i, s, 3 * s + 1)
        implies exists|x: Seq<char>| ps.contains(x) && b[j].parents == seq![x] by {
        let k = choose|k: int| 0 <= k < made.len() && made[k] == b[j];
        assert(av.contains(av[k]));
    }
}

/// No two support blocks of an equivocating member have the same parents.
#[verifier::spinoff_prover]
#[verifier::rlimit(40)]
proof fn lemma_equivocating_distinct(b: Seq<BlockView>, av: Seq<Seq<char>>, made: Seq<BlockView>, ps: Set<Seq<char>>, i: int, s: int)
    requires
        crate::lexical::strictly_ascending(av),
        made.len() == av.len(),
        forall|k: int| 0 <= k < made.len() ==> (#[trigger] made[k]).parents == seq![av[k]],
        forall|x: Seq<char>| ps.contains(x) <==> av.contains(x),
        forall|j: int| 0 <= j < b.len() ==> (issued_by(#[trigger] b[j], i, s, 3 * s + 1) <==> made.contains(b[j])),
        forall|k: int| 0 <= k < made.len() ==> b.contains(#[trigger] made[k]),
        crate::sorting::keys_distinct(b, |b: BlockView| identity_of(b)),
    ensures
        forall|j1: int, j2: int| 0 <= j1 < b.len() && 0 <= j2 < b.len() && j1 != j2
            && issued_by(#[trigger] b[j1], i, s, 3 * s + 1) && issued_by(#[trigger] b[j2], i, s, 3 * s + 1)
            ==> b[j1].parents != b[j2].parents,
{
    assert forall|j1: int, j2: int| 0 <= j1 < b.len() && 0 <= j2 < b.len() && j1 != j2
        && issued_by(#[trigger] b[j1], i, s, 3 * s + 1) && issued_by(#[trigger] b[j2], i, s, 3 * s + 1)
        implies b[j1].parents != b[j2].parents by {
        let k1 = choose|k: int| 0 <= k < made.len() && made[k] == b[j1];
        let k2 = choose|k: int| 0 <= k < made.len() && made[k] == b[j2];
        if k1 == k2 {
            let f = |b: BlockView| identity_of(b);
            if j1 < j2 {
                assert(f(b[j1]) != f(b[j2]));
            } else {
                assert(f(b[j2]) != f(b[j1]));
            }
        } else {
            if k1 < k2 {
                assert(crate::lexical::text_lt(av[k1], av[k2]));
                crate::lexical::lemma_text_lt_irreflexive(av[k1]);
            } else {
                assert(crate::lexical::text_lt(av[k2], av[k1]));
                crate::lexical::lemma_text_lt_irreflexive(av[k2]);
            }
            assert(b[j1].parents[0] == av[k1]);
            assert(b[j2].parents[0] == av[k2]);
        }
    }
}

#[verifier::spinoff_prover]
#[verifier::rlimit(100)]
proof fn lemma_support_equivocating(t: Trace, config: SimulationConfig, s: int, i: int)
    requires
        simulated_trace(t, config),
        !ids_collide(block_views(t.blocks@)),
        0 <= s < config.slots,
        0 <= i < config.stakes@.len(),
        live(config, i),
        equivocates(t, config, s, i),
    ensures
        forall|x: Seq<char>| #[trigger] proposals_seen(t, config, s, i).contains(x) ==> exists|j: int| 0 <= j < t.blocks@.len()
            && issued_by(#[trigger] block_views(t.blocks@)[j], i, s, 3 * s + 1) && block_views(t.blocks@)[j].parents == seq![x],
        forall|j: int| 0 <= j < t.blocks@.len() && issued_by(#[trigger] block_views(t.blocks@)[j], i, s, 3 * s + 1)
            ==> exists|x: Seq<char>| proposals_seen(t, config, s, i).contains(x) && block_views(t.blocks@)[j].parents == seq![x],
        forall|j1: int, j2: int| 0 <= j1 < t.blocks@.len() && 0 <= j2 < t.blocks@.len() && j1 != j2
            && issued_by(#[trigger] block_views(t.blocks@)[j1], i, s, 3 * s + 1) && issued_by(#[trigger] block_views(t.blocks@)[j2], i, s, 3 * s + 1)
            ==> block_views(t.blocks@)[j1].parents != block_views(t.blocks@)[j2].parents,
{
    lemma_trace_members(t, config);
    let a = t.committee@;
    let b = block_views(t.blocks@);
    let (view, known) = lemma_member_support(t, config, s, i);
    let rounds = spec_wave_rounds(s as u32);
    let av = phase_ids(view, known, s as u32, rounds.proposal);
    let made = support_made(config, a, view, known, s as u32, rounds, i);
    let ps = proposals_seen(t, config, s, i);
    crate::simulator::lemma_phase_ids_ascending(view, known, s as u32, rounds.proposal);
    lemma_two_distinct(av);
    let (y, z) = choose|y: Seq<char>, z: Seq<char>| #[trigger] ps.contains(y) && #[trigger] ps.contains(z) && y != z;
    assert(av.contains(y) && av.contains(z));
    assert(av.len() > 1);
    assert(made.len() == av.len());
    assert forall|k: int| 0 <= k < made.len() implies (#[trigger] made[k]).parents == seq![av[k]] by {}
    assert(b.len() == t.blocks@.len());
    assert(crate::simulator::well_shaped(b));
    assert(crate::sorting::keys_distinct(b, |b: BlockView| identity_of(b)));
    lemma_equivocating_covers(b, av, made, ps, i, s);
    lemma_equivocating_single_parent(b, av, made, ps, i, s);
    lemma_equivocating_distinct(b, av, made, ps, i, s);
}

/// Support follows the proposals seen: in a simulated trace (no two of its blocks of
/// different identities sharing an id), a live member `i` that saw no proposal of a slot by
/// its support deadline issues no support block there; one that saw some issues, unless it
/// equivocates, exactly one support block there, variant 0, whose parents are the proposals
/// it saw; and a Byzantine member that saw two or more issues one support block per
/// proposal it saw, with that proposal as its only parent.
#[verifier::spinoff_prover]
#[verifier::rlimit(60)]
pub proof fn support_follows_seen_proposals(t: Trace, config: SimulationConfig, s: int, i: int)
    requires
        simulated_trace(t, config),
        !ids_collide(block_views(t.blocks@)),
        0 <= s < config.slots,
        0 <= i < config.stakes@.len(),
    ensures
        (forall|x: Seq<char>| !proposals_seen(t, config, s, i).contains(x))
            ==> forall|j: int| 0 <= j < t.blocks@.len() ==> !issued_by(#[trigger] block_views(t.blocks@)[j], i, s, 3 * s + 1),
        live(config, i) && !equivocates(t, config, s, i) && (exists|x: Seq<char>| proposals_seen(t, config, s, i).contains(x)) ==> {
            &&& exists|j: int| 0 <= j < t.blocks@.len() && issued_by(#[trigger] block_views(t.blocks@)[j], i, s, 3 * s + 1)
            &&& forall|j: int| 0 <= j < t.blocks@.len() && issued_by(#[trigger] block_views(t.blocks@)[j], i, s, 3 * s + 1)
                ==> block_views(t.blocks@)[j].variant == 0 && block_views(t.blocks@)[j].parents.to_set() == proposals_seen(t, config, s, i)
        },
        live(config, i) && equivocates(t, config, s, i) ==> {
            &&& forall|x: Seq<char>| #[trigger] proposals_seen(t, config, s, i).contains(x) ==> exists|j: int| 0 <= j < t.blocks@.len()
                && issued_by(#[trigger] block_views(t.blocks@)[j], i, s, 3 * s + 1) && block_views(t.blocks@)[j].parents == seq![x]
            &&& forall|j: int| 0 <= j < t.blocks@.len() && issued_by(#[trigger] block_views(t.blocks@)[j], i, s, 3 * s + 1)
                ==> exists|x: Seq<char>| proposals_seen(t, config, s, i).contains(x) && block_views(t.blocks@)[j].parents == seq![x]
            &&& forall|j1: int, j2: int| 0 <= j1 < t.blocks@.len() && 0 <= j2 < t.blocks@.len() && j1 != j2
                && issued_by(#[trigger] block_views(t.blocks@)[j1], i, s, 3 * s + 1) && issued_by(#[trigger] block_views(t.blocks@)[j2], i, s, 3 * s + 1)
                ==> block_views(t.blocks@)[j1].parents != block_views(t.blocks@)[j2].parents
        },
{
    lemma_support_none(t, config, s, i);
    lemma_support_single(t, config, s, i);
    if live(config, i) && equivocates(t, config, s, i) {
        lemma_support_equivocating(t, config, s, i);
    }
}

/// Certificates follow the support seen: in a simulated trace (no two of its blocks of
/// different identities sharing an id), every certificate block of member `i` in a slot has
/// as parents exactly the support blocks of that slot delivered to `i` by the certificate
/// deadline; a live member that saw some issues a certificate there as variant 0, and a
/// Byzantine one also as variant 1, and no others; one that saw none issues none.
pub proof fn certificates_follow_seen_support(t: Trace, config: SimulationConfig, s: int, i: int)
    requires
        simulated_trace(t, config),
        !ids_collide(block_views(t.blocks@)),
        0 <= s < config.slots,
        0 <= i < config.stakes@.len(),
    ensures
        forall|j: int| 0 <= j < t.blocks@.len() && issued_by(#[trigger] block_views(t.blocks@)[j], i, s, 3 * s + 2)
            ==> block_views(t.blocks@)[j].parents.to_set() == support_seen(t, config, s, i)
                && block_views(t.blocks@)[j].variant < (if config.byzantine_authorities@.contains(i as u32) { 2int } else { 1int }),
        (forall|x: Seq<char>| !support_seen(t, config, s, i).contains(x))
            ==> forall|j: int| 0 <= j < t.blocks@.len() ==> !issued_by(#[trigger] block_views(t.blocks@)[j], i, s, 3 * s + 2),
        live(config, i) && (exists|x: Seq<char>| support_seen(t, config, s, i).contains(x)) ==> {
            &&& exists|j: int| 0 <= j < t.blocks@.len() && issued_by(#[trigger] block_views(t.blocks@)[j], i, s, 3 * s + 2)
                && block_views(t.blocks@)[j].variant == 0
            &&& config.byzantine_authorities@.contains(i as u32) ==> exists|j: int| 0 <= j < t.blocks@.len()
                && issued_by(#[trigger] block_views(t.blocks@)[j], i, s, 3 * s + 2) && block_views(t.blocks@)[j].variant == 1
        },
{
    lemma_trace_members(t, config);
    let a = t.committee@;
    let b = block_views(t.blocks@);
    let (view, known) = lemma_member_certificates(t, config, s, i);
    let rounds = spec_wave_rounds(s as u32);
    let sp = phase_ids(view, known, s as u32, rounds.support);
    let made = certificates_made(config, a, view, known, s as u32, rounds, i);
    let ss = support_seen(t, config, s, i);
    assert(a[i].id@ == authority_name(i as nat));
    assert(sp.to_set() =~= ss) by {
        assert forall|y: Seq<char>| sp.to_set().contains(y) <==> ss.contains(y) by {}
    }
    assert forall|j: int| 0 <= j < t.blocks@.len() && issued_by(#[trigger] b[j], i, s, 3 * s + 2)
        implies b[j].parents.to_set() == ss
            && b[j].variant < (if config.byzantine_authorities@.contains(i as u32) { 2int } else { 1int }) by {
        assert(made.contains(b[j]));
        let k = choose|k: int| 0 <= k < made.len() && made[k] == b[j];
    }
    if forall|x: Seq<char>| !ss.contains(x) {
        if sp.len() > 0 {
            assert(sp.contains(sp[0]));
            assert(ss.contains(sp[0]));
        }
        assert(made.len() == 0);
    }
    if live(config, i) && (exists|x: Seq<char>| ss.contains(x)) {
        let x = choose|x: Seq<char>| ss.contains(x);
        assert(sp.contains(x));
        assert(sp.len() > 0);
        assert(b.contains(made[0]));
        let j = choose|j: int| 0 <= j < b.len() && b[j] == made[0];
        assert(made.contains(b[j]));
        if config.byzantine_authorities@.contains(i as u32) {
            assert(b.contains(made[1]));
            let j1 = choose|j: int| 0 <= j < b.len() && b[j] == made[1];
            assert(made.contains(b[j1]));
        }
    }
}

} // verus!
