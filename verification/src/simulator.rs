use rand::distr::Bernoulli;
use crate::draws::{Draw, NetworkDraws, latency_draw, loss_draw, loss_ratio, never_drops, ratio_loss};
use vstd::prelude::*;
use crate::dag::DagError;
use crate::model::CommitteeError;
use crate::render::decimal_text;
use crate::identity::block_id_text;
use crate::wave::{WaveRounds, wave_rounds, wave_representable, spec_wave_rounds};
use crate::dag::{block_views, adjacent_ascending, round_in_wave, identity_of, ids_collide, build_outcome, self_contained, lemma_build_succeeds, DagState, DagFault};
use crate::trace::forms_committee;
use crate::model::authority_views;
use crate::lexical::{texts, text_lt, str_lt, strictly_ascending, str_eq, insert_text, lemma_text_lt_asymmetric, lemma_text_lt_irreflexive};
use crate::sorting::{SortKey, stable_sort, stable_sorted, lemma_stable_sorted_elements, lemma_stable_sorted_adjacent, precedes_asymmetric, keys_distinct};
use crate::model::{Authority, AuthorityId, Block, BlockView, copy_texts, id_is_canonical};
use crate::trace::{named_set, authority_name, authority_name_of, Event, EventStatus, EventView, event_views, Trace, invariant_report, replayed, schema_text, TRACE_SCHEMA_VERSION};
use crate::dag::Dag;
use crate::decision::evaluate_all;
use crate::model::{Committee, CommitteeFault, committee_outcome, roster_matches};
use crate::parsing::{parse_usize, strip_text_prefix, usize_text_value};

verus! {

/// Parameters of one seeded simulation.
#[derive(Clone, Debug, PartialEq)]
pub struct SimulationConfig {
    pub seed: u64,
    pub stakes: Vec<u64>,
    pub slots: u32,
    pub latency_min_ms: u64,
    pub latency_max_ms: u64,
    pub round_duration_ms: u64,
    /// Loss distribution of each non-local delivery; `None` when the configured loss
    /// probability lies outside `[0, 1]` (the configuration is then refused).
    pub packet_loss: Option<Bernoulli>,
    pub crash_authorities: Vec<u32>,
    pub byzantine_authorities: Vec<u32>,
}

impl Default for SimulationConfig {
    fn default() -> (r: Self)
        ensures
            r.seed == 7,
            r.stakes@ == seq![1u64, 1, 1, 1],
            r.slots == 4,
            r.latency_min_ms == 5,
            r.latency_max_ms == 40,
            r.round_duration_ms == 50,
            r.packet_loss == Some(ratio_loss(0, 1)),
            r.crash_authorities@.len() == 0,
            r.byzantine_authorities@.len() == 0,
    {
        let mut stakes: Vec<u64> = Vec::new();
        stakes.push(1);
        stakes.push(1);
        stakes.push(1);
        stakes.push(1);
        proof {
            assert(stakes@ =~= seq![1u64, 1, 1, 1]);
        }
        SimulationConfig {
            seed: 7,
            stakes,
            slots: 4,
            latency_min_ms: 5,
            latency_max_ms: 40,
            round_duration_ms: 50,
            packet_loss: loss_ratio(0, 1),
            crash_authorities: Vec::new(),
            byzantine_authorities: Vec::new(),
        }
    }
}

/// Why a simulation cannot run.
#[derive(Debug)]
pub enum SimulationError {
    Config(String),
    Committee(CommitteeError),
    Dag(DagError),
}

/// The message text of a simulation error.
pub open spec fn simulation_error_text(e: SimulationError) -> Seq<char> {
    match e {
        SimulationError::Config(m) => "invalid simulation configuration: "@ + m@,
        SimulationError::Committee(c) => crate::model::committee_fault_text(c@),
        SimulationError::Dag(d) => crate::dag::dag_fault_text(d@),
    }
}

impl SimulationError {
    /// The error's message text.
    pub fn message(&self) -> (s: String)
        ensures
            s@ == simulation_error_text(*self),
    {
        match self {
            SimulationError::Config(m) => {
                let mut s = String::from_str("invalid simulation configuration: ");
                s.append(m.as_str());
                s
            },
            SimulationError::Committee(c) => c.message(),
            SimulationError::Dag(d) => d.message(),
        }
    }
}

/// Message of `WaveRoundError { slot }`.
pub open spec fn wave_error_text(slot: u32) -> Seq<char> {
    "slot "@ + decimal_text(slot as nat) + " exceeds the representable three-round horizon"@
}

/// The first configuration check that fails, as its message.
pub open spec fn config_fault(c: SimulationConfig) -> Option<Seq<char>> {
    if c.slots == 0 {
        Some("slots must be positive"@)
    } else if c.packet_loss is None {
        Some("packet loss must be in [0,1]"@)
    } else if c.latency_min_ms > c.latency_max_ms {
        Some("minimum latency exceeds maximum"@)
    } else if c.round_duration_ms == 0 {
        Some("round duration must be positive"@)
    } else if !wave_representable((c.slots - 1) as u32) {
        Some(wave_error_text((c.slots - 1) as u32))
    } else if (3 * (c.slots - 1) + 2) * c.round_duration_ms + c.latency_max_ms > u64::MAX {
        Some("complete simulation time horizon overflows"@)
    } else {
        None
    }
}

/// Checks the configuration, one condition after another, and reports the first that fails.
pub(crate) fn validate_config(config: &SimulationConfig) -> (r: Result<(), SimulationError>)
    ensures
        r is Ok <==> config_fault(*config) is None,
        r is Err ==> (r matches Err(SimulationError::Config(m)) && Some(m@) == config_fault(*config)),
{
    if config.slots == 0 {
        return Err(SimulationError::Config(String::from_str("slots must be positive")));
    }
    if config.packet_loss.is_none() {
        return Err(SimulationError::Config(String::from_str("packet loss must be in [0,1]")));
    }
    if config.latency_min_ms > config.latency_max_ms {
        return Err(SimulationError::Config(String::from_str("minimum latency exceeds maximum")));
    }
    if config.round_duration_ms == 0 {
        return Err(SimulationError::Config(String::from_str("round duration must be positive")));
    }
    let rounds = match wave_rounds(config.slots - 1) {
        Ok(r) => r,
        Err(e) => return Err(SimulationError::Config(e.message())),
    };
    let horizon = match (rounds.certificate as u64).checked_mul(config.round_duration_ms) {
        Some(t) => t.checked_add(config.latency_max_ms),
        None => None,
    };
    if horizon.is_none() {
        return Err(SimulationError::Config(String::from_str("complete simulation time horizon overflows")));
    }
    Ok(())
}

/// The committee `simulate` forms: authority `i` is named `authority-i` and has stake `stakes[i]`.
pub open spec fn named_committee(stakes: Seq<u64>) -> Seq<(Seq<char>, u64)> {
    Seq::new(stakes.len(), |i: int| (authority_name(i as nat), stakes[i]))
}

pub(crate) fn committee_members(stakes: &[u64]) -> (r: Vec<Authority>)
    ensures
        authority_views(r@) == named_committee(stakes@),
{
    let mut r: Vec<Authority> = Vec::new();
    let mut i: usize = 0;
    while i < stakes.len()
        invariant
            i <= stakes@.len(),
            authority_views(r@) == named_committee(stakes@).take(i as int),
        decreases stakes@.len() - i,
    {
        let a = Authority { id: AuthorityId(authority_name_of(i as u64)), stake: stakes[i] };
        let ghost before = r@;
        r.push(a);
        proof {
            assert(authority_views(r@) =~= authority_views(before).push((a.id@, a.stake)));
            assert(named_committee(stakes@).take(i as int + 1) =~= named_committee(stakes@).take(i as int).push((authority_name(i as nat), stakes@[i as int])));
        }
        i = i + 1;
    }
    proof {
        assert(named_committee(stakes@).take(stakes@.len() as int) =~= named_committee(stakes@));
    }
    r
}

pub(crate) fn copy_authorities(v: &[Authority]) -> (r: Vec<Authority>)
    ensures
        authority_views(r@) == authority_views(v@),
{
    let mut r: Vec<Authority> = Vec::new();
    let mut i: usize = 0;
    while i < v.len()
        invariant
            i <= v@.len(),
            authority_views(r@) == authority_views(v@).take(i as int),
        decreases v@.len() - i,
    {
        let a = v[i].duplicate();
        let ghost before = r@;
        r.push(a);
        proof {
            assert(authority_views(r@) =~= authority_views(before).push((a.id@, a.stake)));
            assert(authority_views(v@).take(i as int + 1) =~= authority_views(v@).take(i as int).push((v@[i as int].id@, v@[i as int].stake)));
        }
        i = i + 1;
    }
    proof {
        assert(authority_views(v@).take(v@.len() as int) =~= authority_views(v@));
    }
    r
}

fn copy_numbers<T: Copy>(v: &[T]) -> (r: Vec<T>)
    ensures
        r@ == v@,
{
    let mut r: Vec<T> = Vec::new();
    let mut i: usize = 0;
    while i < v.len()
        invariant
            i <= v@.len(),
            r@ == v@.take(i as int),
        decreases v@.len() - i,
    {
        r.push(v[i]);
        proof {
            assert(v@.take(i as int + 1) =~= v@.take(i as int).push(v@[i as int]));
        }
        i = i + 1;
    }
    proof {
        assert(v@.take(v@.len() as int) =~= v@);
    }
    r
}

impl SimulationConfig {
    /// A copy with equal fields.
    pub fn duplicate(&self) -> (r: SimulationConfig)
        ensures
            r.seed == self.seed,
            r.stakes@ == self.stakes@,
            r.slots == self.slots,
            r.latency_min_ms == self.latency_min_ms,
            r.latency_max_ms == self.latency_max_ms,
            r.round_duration_ms == self.round_duration_ms,
            r.packet_loss == self.packet_loss,
            r.crash_authorities@ == self.crash_authorities@,
            r.byzantine_authorities@ == self.byzantine_authorities@,
    {
        SimulationConfig {
            seed: self.seed,
            stakes: copy_numbers(self.stakes.as_slice()),
            slots: self.slots,
            latency_min_ms: self.latency_min_ms,
            latency_max_ms: self.latency_max_ms,
            round_duration_ms: self.round_duration_ms,
            packet_loss: self.packet_loss,
            crash_authorities: copy_numbers(self.crash_authorities.as_slice()),
            byzantine_authorities: copy_numbers(self.byzantine_authorities.as_slice()),
        }
    }
}

fn has_index(v: &[u32], i: u32) -> (r: bool)
    ensures
        r == v@.contains(i),
{
    let mut k: usize = 0;
    while k < v.len()
        invariant
            k <= v@.len(),
            forall|j: int| 0 <= j < k ==> v@[j] != i,
        decreases v@.len() - k,
    {
        if v[k] == i {
            return true;
        }
        k = k + 1;
    }
    false
}

/// Some index of `v` is at least `n`.
pub open spec fn index_outside(v: Seq<u32>, n: nat) -> bool {
    exists|k: int| 0 <= k < v.len() && v[k] >= n
}

fn any_outside(v: &[u32], n: usize) -> (r: bool)
    ensures
        r == index_outside(v@, n as nat),
{
    let mut k: usize = 0;
    while k < v.len()
        invariant
            k <= v@.len(),
            forall|j: int| 0 <= j < k ==> v@[j] < n,
        decreases v@.len() - k,
    {
        if v[k] as usize >= n {
            return true;
        }
        k = k + 1;
    }
    false
}

/// The block most recently recorded under `id` (a later record replaces an earlier one).
pub open spec fn latest_with_id(s: Seq<BlockView>, id: Seq<char>) -> Option<BlockView>
    decreases s.len(),
{
    if s.len() == 0 {
        None
    } else if s.last().id == id {
        Some(s.last())
    } else {
        latest_with_id(s.drop_last(), id)
    }
}

fn latest_block(blocks: &Vec<Block>, id: &str) -> (r: Option<usize>)
    ensures
        match latest_with_id(block_views(blocks@), id@) {
            None => r is None,
            Some(b) => r matches Some(k) && k < blocks@.len() && blocks@[k as int]@ == b,
        },
{
    let ghost all = block_views(blocks@);
    let mut k: usize = blocks.len();
    assert(all.take(k as int) =~= all);
    while k > 0
        invariant
            all == block_views(blocks@),
            k <= blocks@.len(),
            latest_with_id(all, id@) == latest_with_id(all.take(k as int), id@),
        decreases k,
    {
        proof {
            assert(all.take(k as int).drop_last() =~= all.take(k as int - 1));
            assert(all.take(k as int).last() == blocks@[k - 1]@);
        }
        if str_eq(blocks[k - 1].id.as_str(), id) {
            return Some(k - 1);
        }
        k = k - 1;
    }
    None
}

/// The ids of `view`, in order, whose latest recorded block sits at `slot` and `round`.
pub open spec fn phase_ids(view: Seq<Seq<char>>, known: Seq<BlockView>, slot: u32, round: u32) -> Seq<Seq<char>>
    decreases view.len(),
{
    if view.len() == 0 {
        Seq::empty()
    } else {
        let rest = phase_ids(view.drop_last(), known, slot, round);
        if latest_with_id(known, view.last()) matches Some(b) && b.slot == slot && b.round == round {
            rest.push(view.last())
        } else {
            rest
        }
    }
}

fn phase_parents(view: &Vec<String>, known: &Vec<Block>, slot: u32, round: u32) -> (r: Vec<String>)
    ensures
        texts(r@) == phase_ids(texts(view@), block_views(known@), slot, round),
{
    let ghost vs = texts(view@);
    let mut r: Vec<String> = Vec::new();
    let mut i: usize = 0;
    proof {
        assert(vs.take(0) =~= Seq::<Seq<char>>::empty());
        assert(texts(r@) =~= Seq::<Seq<char>>::empty());
    }
    while i < view.len()
        invariant
            vs == texts(view@),
            i <= view@.len(),
            texts(r@) == phase_ids(vs.take(i as int), block_views(known@), slot, round),
        decreases view@.len() - i,
    {
        proof {
            assert(vs.take(i as int + 1).drop_last() =~= vs.take(i as int));
            assert(vs.take(i as int + 1).last() == view@[i as int]@);
        }
        match latest_block(known, view[i].as_str()) {
            Some(k) => {
                if known[k].slot == slot && known[k].round == round {
                    let id = view[i].clone();
                    let ghost before = r@;
                    r.push(id);
                    proof {
                        assert(texts(r@) =~= texts(before).push(id@));
                    }
                }
            },
            None => {},
        }
        i = i + 1;
    }
    proof {
        assert(vs.take(view@.len() as int) =~= vs);
    }
    r
}

/// `b` is what `Block::new` builds from these fields and a parent set.
pub open spec fn built_block(b: BlockView, author: Seq<char>, round: u32, slot: u32, variant: u32, parents: Set<Seq<char>>) -> bool {
    &&& b.author == author
    &&& b.round == round
    &&& b.slot == slot
    &&& b.variant == variant
    &&& strictly_ascending(b.parents)
    &&& b.parents.to_set() == parents
    &&& id_is_canonical(b)
}

/// Blocks of one author in one round: `count` variants over the same parents.
fn variants_of(author: &AuthorityId, round: u32, slot: u32, count: u32, parents: &Vec<String>) -> (r: Vec<Block>)
    ensures
        r@.len() == count,
        forall|k: int| 0 <= k < count ==> built_block(#[trigger] r@[k]@, author@, round, slot, k as u32, texts(parents@).to_set()),
{
    let mut r: Vec<Block> = Vec::new();
    let mut variant: u32 = 0;
    while variant < count
        invariant
            variant <= count,
            r@.len() == variant,
            forall|k: int| 0 <= k < variant ==> built_block(#[trigger] r@[k]@, author@, round, slot, k as u32, texts(parents@).to_set()),
        decreases count - variant,
    {
        let b = Block::new(author.duplicate(), round, slot, variant, copy_texts(parents.as_slice()));
        r.push(b);
        variant = variant + 1;
    }
    r
}

/// Support blocks of an authority that sees the proposals `available`: one block over all
/// of them, or (a Byzantine authority seeing several) one block per proposal.
fn support_blocks_of(author: &AuthorityId, round: u32, slot: u32, available: Vec<String>, byzantine: bool) -> (r: Vec<Block>)
    ensures
        byzantine && available@.len() > 1 ==> r@.len() == available@.len()
            && forall|k: int| 0 <= k < r@.len() ==> built_block(#[trigger] r@[k]@, author@, round, slot, k as u32, set![available@[k]@]),
        !(byzantine && available@.len() > 1) ==> r@.len() == 1 && built_block(r@[0]@, author@, round, slot, 0, texts(available@).to_set()),
{
    let mut r: Vec<Block> = Vec::new();
    if byzantine && available.len() > 1 {
        let mut k: usize = 0;
        while k < available.len()
            invariant
                k <= available@.len(),
                r@.len() == k,
                forall|j: int| 0 <= j < k ==> built_block(#[trigger] r@[j]@, author@, round, slot, j as u32, set![available@[j]@]),
            decreases available@.len() - k,
        {
            let mut single: Vec<String> = Vec::new();
            single.push(available[k].clone());
            proof {
                assert(texts(single@).to_set() =~= set![available@[k as int]@]) by {
                    assert(texts(single@) =~= seq![available@[k as int]@]);
                    assert forall|x: Seq<char>| texts(single@).to_set().contains(x) <==> x == available@[k as int]@ by {
                        if x == available@[k as int]@ {
                            assert(texts(single@)[0] == x);
                        }
                    }
                }
            }
            r.push(Block::new(author.duplicate(), round, slot, k as u32, single));
            k = k + 1;
        }
    } else {
        r.push(Block::new(author.duplicate(), round, slot, 0, available));
    }
    r
}

/// `e` records the broadcast of block `b` to `receiver` scheduled at `at`: a local
/// delivery is immediate, a remote one takes between `lo` and `hi` ms.
pub open spec fn broadcast_event(e: EventView, b: BlockView, receiver: Seq<char>, at: u64, lo: u64, hi: u64) -> bool {
    &&& e.sequence == 0
    &&& e.scheduled_at_ms == at
    &&& e.block_id == b.id
    &&& e.sender == b.author
    &&& e.receiver == receiver
    &&& if receiver == b.author {
        e.outcome_at_ms == at && e.status == EventStatus::Delivered
    } else {
        at + lo <= e.outcome_at_ms <= at + hi
    }
}

/// `seg` broadcasts block `b` to the members, one event per member in committee order.
pub open spec fn broadcast_of(seg: Seq<EventView>, b: BlockView, auths: Seq<Authority>, at: u64, lo: u64, hi: u64) -> bool {
    &&& seg.len() == auths.len()
    &&& forall|k: int| 0 <= k < seg.len() ==> broadcast_event(#[trigger] seg[k], b, auths[k].id@, at, lo, hi)
}

/// `ev` broadcasts the blocks `bs` one after another, each to every member in committee order.
pub open spec fn broadcasts(ev: Seq<EventView>, bs: Seq<BlockView>, auths: Seq<Authority>, at: u64, lo: u64, hi: u64) -> bool
    decreases bs.len(),
{
    if bs.len() == 0 {
        ev.len() == 0
    } else {
        &&& ev.len() >= auths.len()
        &&& broadcasts(ev.take(ev.len() - auths.len()), bs.drop_last(), auths, at, lo, hi)
        &&& broadcast_of(ev.skip(ev.len() - auths.len()), bs.last(), auths, at, lo, hi)
    }
}

/// Broadcasts of consecutive block lists concatenate.
proof fn lemma_broadcasts_append(e1: Seq<EventView>, b1: Seq<BlockView>, e2: Seq<EventView>, b2: Seq<BlockView>, auths: Seq<Authority>, at: u64, lo: u64, hi: u64)
    requires
        broadcasts(e1, b1, auths, at, lo, hi),
        broadcasts(e2, b2, auths, at, lo, hi),
    ensures
        broadcasts(e1 + e2, b1 + b2, auths, at, lo, hi),
    decreases b2.len(),
{
    if b2.len() == 0 {
        assert(e1 + e2 =~= e1);
        assert(b1 + b2 =~= b1);
    } else {
        let n = auths.len();
        let e2p = e2.take(e2.len() - n);
        lemma_broadcasts_append(e1, b1, e2p, b2.drop_last(), auths, at, lo, hi);
        let e = e1 + e2;
        assert(e.take(e.len() - n) =~= e1 + e2p);
        assert((b1 + b2).drop_last() =~= b1 + b2.drop_last());
        assert(e.skip(e.len() - n) =~= e2.skip(e2.len() - n));
        assert((b1 + b2).last() == b2.last());
    }
}

/// A single block's broadcast.
proof fn lemma_broadcasts_one(seg: Seq<EventView>, b: BlockView, auths: Seq<Authority>, at: u64, lo: u64, hi: u64)
    requires
        broadcast_of(seg, b, auths, at, lo, hi),
    ensures
        broadcasts(seg, seq![b], auths, at, lo, hi),
{
    assert(seg.take(seg.len() - auths.len()) =~= Seq::<EventView>::empty());
    assert(seq![b].drop_last() =~= Seq::<BlockView>::empty());
    assert(broadcasts(Seq::<EventView>::empty(), Seq::<BlockView>::empty(), auths, at, lo, hi));
    assert(seg.skip(seg.len() - auths.len()) =~= seg);
}

/// The loss distribution of a configuration (present in every configuration that runs).
pub open spec fn network_loss(config: SimulationConfig) -> Bernoulli {
    config.packet_loss->Some_0
}

/// The event of the broadcast of `b` to `receiver` scheduled at `at` that takes `latency`
/// ms and is dropped or delivered.
pub open spec fn scheduled_event(b: BlockView, receiver: Seq<char>, at: u64, latency: u64, dropped: bool) -> EventView {
    EventView {
        sequence: 0,
        scheduled_at_ms: at,
        outcome_at_ms: (at + latency) as u64,
        status: if dropped { EventStatus::Dropped } else { EventStatus::Delivered },
        block_id: b.id,
        sender: b.author,
        receiver,
    }
}

/// The events of the broadcast of `b` to the members `k..`, in committee order, from a
/// generator seeded with `seed` after the draws `calls`, with the draws after them. The
/// author's own copy is delivered at once; each other member's copy draws a latency in
/// `[lo, hi]` and then a loss outcome (never a loss from a zero-ratio distribution).
pub open spec fn sent_from(seed: u64, calls: Seq<Draw>, b: BlockView, auths: Seq<Authority>, k: int, at: u64, lo: u64, hi: u64, loss: Bernoulli) -> (Seq<EventView>, Seq<Draw>)
    decreases auths.len() - k,
{
    if k >= auths.len() {
        (Seq::empty(), calls)
    } else if auths[k].id@ == b.author {
        let rest = sent_from(seed, calls, b, auths, k + 1, at, lo, hi, loss);
        (seq![scheduled_event(b, auths[k].id@, at, 0, false)] + rest.0, rest.1)
    } else {
        let latency = latency_draw(seed, calls, lo, hi);
        let c1 = calls.push(Draw::Latency(lo, hi));
        let dropped = !never_drops(loss) && loss_draw(seed, c1, loss);
        let rest = sent_from(seed, c1.push(Draw::Loss(loss)), b, auths, k + 1, at, lo, hi, loss);
        (seq![scheduled_event(b, auths[k].id@, at, latency, dropped)] + rest.0, rest.1)
    }
}

/// The events of the broadcasts of the blocks `bs`, one after another, and the draws after them.
pub open spec fn sent(seed: u64, calls: Seq<Draw>, bs: Seq<BlockView>, auths: Seq<Authority>, at: u64, lo: u64, hi: u64, loss: Bernoulli) -> (Seq<EventView>, Seq<Draw>)
    decreases bs.len(),
{
    if bs.len() == 0 {
        (Seq::empty(), calls)
    } else {
        let first = sent(seed, calls, bs.drop_last(), auths, at, lo, hi, loss);
        let last = sent_from(seed, first.1, bs.last(), auths, 0, at, lo, hi, loss);
        (first.0 + last.0, last.1)
    }
}

/// The broadcasts of consecutive block lists follow one another.
proof fn lemma_sent_append(seed: u64, calls: Seq<Draw>, b1: Seq<BlockView>, b2: Seq<BlockView>, auths: Seq<Authority>, at: u64, lo: u64, hi: u64, loss: Bernoulli)
    ensures
        sent(seed, calls, b1 + b2, auths, at, lo, hi, loss) == ({
            let first = sent(seed, calls, b1, auths, at, lo, hi, loss);
            let second = sent(seed, first.1, b2, auths, at, lo, hi, loss);
            (first.0 + second.0, second.1)
        }),
    decreases b2.len(),
{
    let first = sent(seed, calls, b1, auths, at, lo, hi, loss);
    if b2.len() == 0 {
        assert(b1 + b2 =~= b1);
        assert(first.0 + Seq::<EventView>::empty() =~= first.0);
    } else {
        lemma_sent_append(seed, calls, b1, b2.drop_last(), auths, at, lo, hi, loss);
        assert((b1 + b2).drop_last() =~= b1 + b2.drop_last());
        assert((b1 + b2).last() == b2.last());
        let mid = sent(seed, first.1, b2.drop_last(), auths, at, lo, hi, loss);
        let last = sent_from(seed, mid.1, b2.last(), auths, 0, at, lo, hi, loss);
        assert(first.0 + mid.0 + last.0 =~= first.0 + (mid.0 + last.0));
    }
}

/// The broadcast of one block.
proof fn lemma_sent_one(seed: u64, calls: Seq<Draw>, b: BlockView, auths: Seq<Authority>, at: u64, lo: u64, hi: u64, loss: Bernoulli)
    ensures
        sent(seed, calls, seq![b], auths, at, lo, hi, loss) == sent_from(seed, calls, b, auths, 0, at, lo, hi, loss),
{
    assert(seq![b].drop_last() =~= Seq::<BlockView>::empty());
    assert(sent(seed, calls, seq![b].drop_last(), auths, at, lo, hi, loss) == (Seq::<EventView>::empty(), calls));
    let last = sent_from(seed, calls, b, auths, 0, at, lo, hi, loss);
    assert(Seq::<EventView>::empty() + last.0 =~= last.0);
    assert(sent(seed, calls, seq![b], auths, at, lo, hi, loss) == (Seq::<EventView>::empty() + last.0, last.1));
}

/// A zero-ratio loss distribution drops nothing in one block's broadcast.
proof fn lemma_sent_from_delivered(seed: u64, calls: Seq<Draw>, b: BlockView, auths: Seq<Authority>, k: int, at: u64, lo: u64, hi: u64, loss: Bernoulli)
    requires
        never_drops(loss),
    ensures
        forall|i: int| 0 <= i < sent_from(seed, calls, b, auths, k, at, lo, hi, loss).0.len()
            ==> (#[trigger] sent_from(seed, calls, b, auths, k, at, lo, hi, loss).0[i]).status == EventStatus::Delivered,
    decreases auths.len() - k,
{
    if k < auths.len() {
        if auths[k].id@ == b.author {
            lemma_sent_from_delivered(seed, calls, b, auths, k + 1, at, lo, hi, loss);
        } else {
            let c1 = calls.push(Draw::Latency(lo, hi));
            lemma_sent_from_delivered(seed, c1.push(Draw::Loss(loss)), b, auths, k + 1, at, lo, hi, loss);
        }
    }
}

/// A zero-ratio loss distribution drops nothing in broadcasts.
proof fn lemma_sent_delivered(seed: u64, calls: Seq<Draw>, bs: Seq<BlockView>, auths: Seq<Authority>, at: u64, lo: u64, hi: u64, loss: Bernoulli)
    requires
        never_drops(loss),
    ensures
        forall|i: int| 0 <= i < sent(seed, calls, bs, auths, at, lo, hi, loss).0.len()
            ==> (#[trigger] sent(seed, calls, bs, auths, at, lo, hi, loss).0[i]).status == EventStatus::Delivered,
    decreases bs.len(),
{
    if bs.len() > 0 {
        lemma_sent_delivered(seed, calls, bs.drop_last(), auths, at, lo, hi, loss);
        let first = sent(seed, calls, bs.drop_last(), auths, at, lo, hi, loss);
        lemma_sent_from_delivered(seed, first.1, bs.last(), auths, 0, at, lo, hi, loss);
        let last = sent_from(seed, first.1, bs.last(), auths, 0, at, lo, hi, loss);
        assert forall|i: int| 0 <= i < (first.0 + last.0).len() implies (#[trigger] (first.0 + last.0)[i]).status == EventStatus::Delivered by {
            if i < first.0.len() {
                assert((first.0 + last.0)[i] == first.0[i]);
            } else {
                assert((first.0 + last.0)[i] == last.0[i - first.0.len()]);
            }
        }
    }
}

/// Records one delivery event per authority for `block`, sampling latency and loss.
fn schedule_broadcast(
    draws: &mut NetworkDraws,
    config: &SimulationConfig,
    block: &Block,
    scheduled_at_ms: u64,
    authorities: &[Authority],
    events: &mut Vec<Event>,
) -> (r: Result<(), SimulationError>)
    requires
        config.packet_loss is Some,
        config.latency_min_ms <= config.latency_max_ms,
    ensures
        r is Ok ==> event_views(final(events)@).len() == old(events)@.len() + authorities@.len()
            && event_views(final(events)@).take(old(events)@.len() as int) == event_views(old(events)@)
            && forall|k: int| 0 <= k < authorities@.len() ==> broadcast_event(
                #[trigger] event_views(final(events)@)[old(events)@.len() + k], block@, authorities@[k].id@,
                scheduled_at_ms, config.latency_min_ms, config.latency_max_ms),
        r is Err ==> (r matches Err(SimulationError::Config(m)) && m@ == "network outcome timestamp overflow"@),
        scheduled_at_ms + config.latency_max_ms <= u64::MAX ==> r is Ok,
        final(draws).seed() == old(draws).seed(),
        r is Ok ==> (event_views(final(events)@).skip(old(events)@.len() as int), final(draws).calls())
            == sent_from(old(draws).seed(), old(draws).calls(), block@, authorities@, 0, scheduled_at_ms,
                config.latency_min_ms, config.latency_max_ms, network_loss(*config)),
{
    let loss = match config.packet_loss {
        Some(l) => l,
        None => return Ok(()),
    };
    let ghost start = event_views(events@);
    let ghost n0 = events@.len();
    let ghost seed = draws.seed();
    let ghost target = sent_from(seed, draws.calls(), block@, authorities@, 0, scheduled_at_ms,
        config.latency_min_ms, config.latency_max_ms, loss);
    proof {
        assert(event_views(events@).skip(n0 as int) =~= Seq::<EventView>::empty());
        assert(Seq::<EventView>::empty() + target.0 =~= target.0);
    }
    let mut k: usize = 0;
    while k < authorities.len()
        invariant
            k <= authorities@.len(),
            config.latency_min_ms <= config.latency_max_ms,
            loss == network_loss(*config),
            events@.len() == n0 + k,
            event_views(events@).take(n0 as int) == start,
            forall|j: int| 0 <= j < k ==> broadcast_event(#[trigger] event_views(events@)[n0 + j], block@, authorities@[j].id@,
                scheduled_at_ms, config.latency_min_ms, config.latency_max_ms),
            draws.seed() == seed,
            seed == old(draws).seed(),
            event_views(events@).skip(n0 as int) + sent_from(seed, draws.calls(), block@, authorities@, k as int, scheduled_at_ms,
                config.latency_min_ms, config.latency_max_ms, loss).0 == target.0,
            sent_from(seed, draws.calls(), block@, authorities@, k as int, scheduled_at_ms,
                config.latency_min_ms, config.latency_max_ms, loss).1 == target.1,
        decreases authorities@.len() - k,
    {
        let ghost calls0 = draws.calls();
        let receiver = &authorities[k];
        let local = receiver.id.0 == block.author.0;
        let latency = if local { 0 } else { draws.latency(config.latency_min_ms, config.latency_max_ms) };
        let dropped = !local && draws.loss(&loss);
        let outcome = match scheduled_at_ms.checked_add(latency) {
            Some(t) => t,
            None => return Err(SimulationError::Config(String::from_str("network outcome timestamp overflow"))),
        };
        let e = Event {
            sequence: 0,
            scheduled_at_ms,
            outcome_at_ms: outcome,
            status: if dropped { EventStatus::Dropped } else { EventStatus::Delivered },
            block_id: block.id.clone(),
            sender: block.author.duplicate(),
            receiver: receiver.id.duplicate(),
        };
        let ghost before = events@;
        events.push(e);
        proof {
            assert(event_views(events@) =~= event_views(before).push(e@));
            assert(event_views(events@).take(n0 as int) =~= event_views(before).take(n0 as int));
            let lo = config.latency_min_ms;
            let hi = config.latency_max_ms;
            let here = sent_from(seed, calls0, block@, authorities@, k as int, scheduled_at_ms, lo, hi, loss);
            let rest = sent_from(seed, draws.calls(), block@, authorities@, k + 1, scheduled_at_ms, lo, hi, loss);
            if never_drops(loss) {
                let d = choose|d: u32| 0 < d && loss == #[trigger] ratio_loss(0, d);
            }
            assert(e@ == scheduled_event(block@, authorities@[k as int].id@, scheduled_at_ms, latency,
                !local && !never_drops(loss) && loss_draw(seed, calls0.push(Draw::Latency(lo, hi)), loss)));
            assert(here == (seq![e@] + rest.0, rest.1));
            assert(event_views(events@).skip(n0 as int) =~= event_views(before).skip(n0 as int).push(e@));
            assert(event_views(events@).skip(n0 as int) + rest.0 =~= event_views(before).skip(n0 as int) + here.0);
        }
        k = k + 1;
    }
    proof {
        let rest = sent_from(seed, draws.calls(), block@, authorities@, k as int, scheduled_at_ms,
            config.latency_min_ms, config.latency_max_ms, loss);
        assert(event_views(events@).skip(n0 as int) + rest.0 =~= event_views(events@).skip(n0 as int));
    }
    Ok(())
}

/// Delivery target of an event's receiver: the index in `authority-<index>`, if any.
pub open spec fn receiver_index(r: Seq<char>) -> Option<usize> {
    let p = "authority-"@;
    if p.len() <= r.len() && r.subrange(0, p.len() as int) == p {
        usize_text_value(r.skip(p.len() as int))
    } else {
        None
    }
}

/// Ids delivered to authority `k` by `deadline` among `events`.
pub open spec fn delivered_to(events: Seq<EventView>, deadline: u64, k: int) -> Set<Seq<char>> {
    Set::new(|id: Seq<char>| exists|i: int| 0 <= i < events.len() && #[trigger] events[i].block_id == id
        && events[i].status == EventStatus::Delivered && events[i].outcome_at_ms <= deadline
        && receiver_index(events[i].receiver) == Some(k as usize))
}

/// Adds to each authority's local view the ids of the blocks delivered to it by `deadline`.
fn deliver_before(deadline: u64, events: &[Event], local_views: &mut Vec<Vec<String>>)
    requires
        forall|k: int| 0 <= k < old(local_views)@.len() ==> strictly_ascending(#[trigger] texts(old(local_views)@[k]@)),
    ensures
        final(local_views)@.len() == old(local_views)@.len(),
        forall|k: int| 0 <= k < final(local_views)@.len() ==> strictly_ascending(#[trigger] texts(final(local_views)@[k]@)),
        forall|k: int| 0 <= k < final(local_views)@.len() ==> #[trigger] texts(final(local_views)@[k]@).to_set()
            == texts(old(local_views)@[k]@).to_set().union(delivered_to(event_views(events@), deadline, k)),
{
    let ghost ev = event_views(events@);
    let ghost initial = local_views@;
    let mut i: usize = 0;
    proof {
        assert forall|k: int| 0 <= k < local_views@.len() implies #[trigger] texts(local_views@[k]@).to_set()
            == texts(initial[k]@).to_set().union(delivered_to(ev.take(0), deadline, k)) by {
            assert(delivered_to(ev.take(0), deadline, k) =~= Set::empty());
            assert(texts(initial[k]@).to_set().union(Set::empty()) =~= texts(initial[k]@).to_set());
        }
    }
    while i < events.len()
        invariant
            ev == event_views(events@),
            i <= events@.len(),
            local_views@.len() == initial.len(),
            forall|k: int| 0 <= k < local_views@.len() ==> strictly_ascending(#[trigger] texts(local_views@[k]@)),
            forall|k: int| 0 <= k < local_views@.len() ==> #[trigger] texts(local_views@[k]@).to_set()
                == texts(initial[k]@).to_set().union(delivered_to(ev.take(i as int), deadline, k)),
        decreases events@.len() - i,
    {
        let e = &events[i];
        assert(e@ == ev[i as int]);
        let mut target: Option<usize> = None;
        if e.status == EventStatus::Delivered && e.outcome_at_ms <= deadline {
            match strip_text_prefix(e.receiver.0.as_str(), "authority-") {
                Some(rest) => {
                    match parse_usize(rest) {
                        Ok(index) => {
                            if index < local_views.len() {
                                target = Some(index);
                            }
                        },
                        Err(_) => {},
                    }
                },
                None => {},
            }
        }
        proof {
            let t0 = ev.take(i as int);
            let t1 = ev.take(i as int + 1);
            assert forall|k: int| 0 <= k < local_views@.len() implies #[trigger] delivered_to(t1, deadline, k)
                == if target == Some(k as usize) { delivered_to(t0, deadline, k).insert(e@.block_id) } else { delivered_to(t0, deadline, k) } by {
                let d0 = delivered_to(t0, deadline, k);
                let d1 = delivered_to(t1, deadline, k);
                let hit = e@.status == EventStatus::Delivered && e@.outcome_at_ms <= deadline && receiver_index(e@.receiver) == Some(k as usize);
                assert(hit <==> target == Some(k as usize));
                assert forall|id: Seq<char>| d1.contains(id) <==> (d0.contains(id) || (hit && id == e@.block_id)) by {
                    if d1.contains(id) {
                        let j = choose|j: int| 0 <= j < t1.len() && #[trigger] t1[j].block_id == id
                            && t1[j].status == EventStatus::Delivered && t1[j].outcome_at_ms <= deadline
                            && receiver_index(t1[j].receiver) == Some(k as usize);
                        if j < i {
                            assert(t0[j] == t1[j]);
                        }
                    }
                    if d0.contains(id) {
                        let j = choose|j: int| 0 <= j < t0.len() && #[trigger] t0[j].block_id == id
                            && t0[j].status == EventStatus::Delivered && t0[j].outcome_at_ms <= deadline
                            && receiver_index(t0[j].receiver) == Some(k as usize);
                        assert(t0[j] == t1[j]);
                    }
                    if hit && id == e@.block_id {
                        assert(t1[i as int] == e@);
                    }
                }
                if hit {
                    assert(d1 =~= d0.insert(e@.block_id));
                } else {
                    assert(d1 =~= d0);
                }
            }
        }
        match target {
            Some(index) => {
                let mut view = copy_texts(local_views[index].as_slice());
                insert_text(&mut view, e.block_id.clone());
                let ghost before = local_views@;
                local_views.set(index, view);
                proof {
                    assert forall|k: int| 0 <= k < local_views@.len() implies #[trigger] texts(local_views@[k]@).to_set()
                        == texts(initial[k]@).to_set().union(delivered_to(ev.take(i as int + 1), deadline, k)) by {
                        if k == index {
                            assert(texts(local_views@[k]@).to_set() =~= texts(initial[k]@).to_set().union(delivered_to(ev.take(i as int + 1), deadline, k)));
                        } else {
                            assert(local_views@[k] == before[k]);
                        }
                    }
                    assert forall|k: int| 0 <= k < local_views@.len() implies strictly_ascending(#[trigger] texts(local_views@[k]@)) by {
                        if k != index {
                            assert(local_views@[k] == before[k]);
                        }
                    }
                }
            },
            None => {},
        }
        i = i + 1;
    }
    proof {
        assert(ev.take(events@.len() as int) =~= ev);
    }
}

impl SortKey for Event {
    /// Ordered by outcome time, then block id, then receiver.
    open spec fn precedes(&self, other: &Self) -> bool {
        ||| self.outcome_at_ms < other.outcome_at_ms
        ||| self.outcome_at_ms == other.outcome_at_ms && text_lt(self.block_id@, other.block_id@)
        ||| self.outcome_at_ms == other.outcome_at_ms && self.block_id@ == other.block_id@ && text_lt(self.receiver@, other.receiver@)
    }

    fn check_precedes(&self, other: &Self) -> (r: bool) {
        if self.outcome_at_ms != other.outcome_at_ms {
            return self.outcome_at_ms < other.outcome_at_ms;
        }
        if str_lt(self.block_id.as_str(), other.block_id.as_str()) {
            return true;
        }
        str_eq(self.block_id.as_str(), other.block_id.as_str()) && str_lt(self.receiver.0.as_str(), other.receiver.0.as_str())
    }
}

/// The event order is asymmetric: no two events precede each other.
proof fn lemma_event_order_asymmetric()
    ensures
        precedes_asymmetric::<Event>(),
{
    assert forall|a: Event, b: Event| #[trigger] a.precedes(&b) implies !b.precedes(&a) by {
        if a.outcome_at_ms == b.outcome_at_ms {
            if text_lt(a.block_id@, b.block_id@) {
                lemma_text_lt_asymmetric(a.block_id@, b.block_id@);
            } else {
                lemma_text_lt_irreflexive(a.block_id@);
                lemma_text_lt_asymmetric(a.receiver@, b.receiver@);
            }
        }
    }
}

impl Event {
    /// A copy with equal fields.
    pub fn duplicate(&self) -> (r: Event)
        ensures
            r@ == self@,
    {
        Event {
            sequence: self.sequence,
            scheduled_at_ms: self.scheduled_at_ms,
            outcome_at_ms: self.outcome_at_ms,
            status: self.status,
            block_id: self.block_id.clone(),
            sender: self.sender.duplicate(),
            receiver: self.receiver.duplicate(),
        }
    }
}

/// `e` with sequence number `n`.
pub open spec fn numbered(e: EventView, n: u64) -> EventView {
    EventView { sequence: n, ..e }
}

/// The events in order with sequence numbers `0, 1, 2, ...`.
fn renumber(events: &Vec<Event>) -> (r: Vec<Event>)
    ensures
        r@.len() == events@.len(),
        forall|i: int| 0 <= i < r@.len() ==> #[trigger] r@[i]@ == numbered(events@[i]@, i as u64),
        forall|i: int| 0 <= i < r@.len() ==> #[trigger] r@[i].sequence == i,
{
    let mut r: Vec<Event> = Vec::new();
    let mut i: usize = 0;
    while i < events.len()
        invariant
            i <= events@.len(),
            r@.len() == i,
            forall|k: int| 0 <= k < i ==> #[trigger] r@[k]@ == numbered(events@[k]@, k as u64),
            forall|k: int| 0 <= k < i ==> #[trigger] r@[k].sequence == k,
        decreases events@.len() - i,
    {
        let mut e = events[i].duplicate();
        e.sequence = i as u64;
        r.push(e);
        i = i + 1;
    }
    r
}

/// `t` names one of the first `n` authorities.
pub open spec fn names_member(t: Seq<char>, n: nat) -> bool {
    exists|k: nat| k < n && t == #[trigger] authority_name(k)
}

/// `b` is canonical and authored by a committee member `authority-k`, `k < n`.
pub open spec fn from_committee(b: BlockView, n: nat) -> bool {
    &&& id_is_canonical(b)
    &&& names_member(b.author, n)
}

/// `e` delivers a recorded block to a committee member; a local delivery is immediate,
/// a remote one takes between `lo` and `hi` ms.
#[verifier::opaque]
pub open spec fn sound_event(e: EventView, blocks: Seq<BlockView>, n: nat, lo: u64, hi: u64) -> bool {
    &&& names_member(e.receiver, n)
    &&& exists|j: int| 0 <= j < blocks.len() && blocks[j].id == e.block_id && blocks[j].author == e.sender
    &&& e.scheduled_at_ms <= e.outcome_at_ms <= e.scheduled_at_ms + hi
    &&& e.receiver == e.sender ==> e.outcome_at_ms == e.scheduled_at_ms && e.status == EventStatus::Delivered
    &&& e.receiver != e.sender ==> e.scheduled_at_ms + lo <= e.outcome_at_ms
}

/// Every recorded block comes from the committee and every event is sound.
pub open spec fn sound_run(blocks: Seq<BlockView>, events: Seq<EventView>, n: nat, lo: u64, hi: u64) -> bool {
    &&& forall|j: int| 0 <= j < blocks.len() ==> from_committee(#[trigger] blocks[j], n)
    &&& forall|i: int| 0 <= i < events.len() ==> sound_event(#[trigger] events[i], blocks, n, lo, hi)
}

proof fn lemma_old_event_sound(old_blocks: Seq<BlockView>, e: EventView, bv: BlockView, n: nat, lo: u64, hi: u64)
    requires
        sound_event(e, old_blocks, n, lo, hi),
    ensures
        sound_event(e, old_blocks.push(bv), n, lo, hi),
{
    reveal(sound_event);
    let j = choose|j: int| 0 <= j < old_blocks.len() && old_blocks[j].id == e.block_id && old_blocks[j].author == e.sender;
    assert(old_blocks.push(bv)[j] == old_blocks[j]);
}

proof fn lemma_new_event_sound(old_blocks: Seq<BlockView>, e: EventView, bv: BlockView, receiver: Seq<char>, k: nat, n: nat, at: u64, lo: u64, hi: u64)
    requires
        broadcast_event(e, bv, receiver, at, lo, hi),
        receiver == authority_name(k),
        k < n,
    ensures
        sound_event(e, old_blocks.push(bv), n, lo, hi),
{
    reveal(sound_event);
    assert(old_blocks.push(bv)[old_blocks.len() as int] == bv);
}

proof fn lemma_emit_sound(
    old_blocks: Seq<BlockView>,
    old_events: Seq<EventView>,
    nb: Seq<BlockView>,
    ne: Seq<EventView>,
    bv: BlockView,
    authorities: Seq<Authority>,
    stakes: Seq<u64>,
    at: u64,
    lo: u64,
    hi: u64,
)
    requires
        authority_views(authorities) == named_committee(stakes),
        from_committee(bv, authorities.len() as nat),
        sound_run(old_blocks, old_events, authorities.len() as nat, lo, hi),
        nb == old_blocks.push(bv),
        ne.len() == old_events.len() + authorities.len(),
        ne.take(old_events.len() as int) == old_events,
        forall|k: int| 0 <= k < authorities.len() ==> broadcast_event(#[trigger] ne[old_events.len() + k], bv, authorities[k].id@, at, lo, hi),
    ensures
        sound_run(nb, ne, authorities.len() as nat, lo, hi),
{
    let n = authorities.len() as nat;
    let m = old_events.len() as int;
    assert forall|j: int| 0 <= j < nb.len() implies from_committee(#[trigger] nb[j], n) by {
        if j < old_blocks.len() {
            assert(nb[j] == old_blocks[j]);
        }
    }
    assert forall|i: int| 0 <= i < m implies sound_event(#[trigger] ne[i], nb, n, lo, hi) by {
        assert(ne.take(m)[i] == ne[i]);
        lemma_old_event_sound(old_blocks, old_events[i], bv, n, lo, hi);
    }
    assert forall|k: int| 0 <= k < authorities.len() implies sound_event(#[trigger] ne[m + k], nb, n, lo, hi) by {
        lemma_member_name(authorities, stakes, k);
        lemma_new_event_sound(old_blocks, ne[m + k], bv, authorities[k].id@, k as nat, n, at, lo, hi);
    }
    assert forall|i: int| 0 <= i < ne.len() implies sound_event(#[trigger] ne[i], nb, n, lo, hi) by {
        if i >= m {
            assert(ne[m + (i - m)] == ne[i]);
        }
    }
}

proof fn lemma_member_name(authorities: Seq<Authority>, stakes: Seq<u64>, k: int)
    requires
        authority_views(authorities) == named_committee(stakes),
        0 <= k < authorities.len(),
    ensures
        authorities[k].id@ == authority_name(k as nat),
{
    assert(authority_views(authorities).len() == authorities.len());
    assert(named_committee(stakes).len() == stakes.len());
    assert(authority_views(authorities)[k] == (authorities[k].id@, authorities[k].stake));
    assert(named_committee(stakes)[k] == (authority_name(k as nat), stakes[k]));
}

/// Broadcasts `block` and records it.
fn emit(
    draws: &mut NetworkDraws,
    config: &SimulationConfig,
    block: Block,
    at: u64,
    authorities: &Vec<Authority>,
    events: &mut Vec<Event>,
    blocks: &mut Vec<Block>,
) -> (r: Result<(), SimulationError>)
    requires
        config.packet_loss is Some,
        config.latency_min_ms <= config.latency_max_ms,
        authority_views(authorities@) == named_committee(config.stakes@),
        from_committee(block@, authorities@.len() as nat),
        sound_run(block_views(old(blocks)@), event_views(old(events)@), authorities@.len() as nat, config.latency_min_ms, config.latency_max_ms),
    ensures
        r is Ok ==> block_views(final(blocks)@) == block_views(old(blocks)@).push(block@),
        r is Ok ==> final(events)@.len() == old(events)@.len() + authorities@.len(),
        r is Ok ==> event_views(final(events)@).take(old(events)@.len() as int) == event_views(old(events)@)
            && broadcast_of(event_views(final(events)@).skip(old(events)@.len() as int), block@, authorities@, at,
                config.latency_min_ms, config.latency_max_ms),
        r is Ok ==> sound_run(block_views(final(blocks)@), event_views(final(events)@), authorities@.len() as nat, config.latency_min_ms, config.latency_max_ms),
        r is Err ==> (r matches Err(SimulationError::Config(m)) && m@ == "network outcome timestamp overflow"@),
        at + config.latency_max_ms <= u64::MAX ==> r is Ok,
        final(draws).seed() == old(draws).seed(),
        r is Ok ==> (event_views(final(events)@).skip(old(events)@.len() as int), final(draws).calls())
            == sent_from(old(draws).seed(), old(draws).calls(), block@, authorities@, 0, at,
                config.latency_min_ms, config.latency_max_ms, network_loss(*config)),
{
    let ghost n = authorities@.len() as nat;
    let ghost lo = config.latency_min_ms;
    let ghost hi = config.latency_max_ms;
    let ghost old_events = event_views(events@);
    let ghost old_blocks = block_views(blocks@);
    match schedule_broadcast(draws, config, &block, at, authorities.as_slice(), events) {
        Ok(()) => {},
        Err(e) => return Err(e),
    }
    let ghost bv = block@;
    proof {
        let seg = event_views(events@).skip(old_events.len() as int);
        assert forall|k: int| 0 <= k < seg.len() implies broadcast_event(#[trigger] seg[k], bv, authorities@[k].id@, at,
            config.latency_min_ms, config.latency_max_ms) by {
            assert(seg[k] == event_views(events@)[old_events.len() + k]);
        }
    }
    blocks.push(block);
    proof {
        assert(block_views(blocks@) =~= old_blocks.push(bv));
        lemma_emit_sound(old_blocks, old_events, block_views(blocks@), event_views(events@), bv, authorities@, config.stakes@, at,
            config.latency_min_ms, config.latency_max_ms);
    }
    Ok(())
}

/// The state that every phase of a run keeps.
pub open spec fn run_ok(config: SimulationConfig, authorities: Seq<Authority>, blocks: Seq<Block>, events: Seq<Event>) -> bool {
    &&& config.packet_loss is Some
    &&& config.latency_min_ms <= config.latency_max_ms
    &&& authority_views(authorities) == named_committee(config.stakes@)
    &&& sound_run(block_views(blocks), event_views(events), authorities.len() as nat, config.latency_min_ms, config.latency_max_ms)
}

/// Broadcasts and records the blocks `made`, all authored by committee member `author`.
fn emit_all(
    draws: &mut NetworkDraws,
    config: &SimulationConfig,
    made: &Vec<Block>,
    at: u64,
    authorities: &Vec<Authority>,
    events: &mut Vec<Event>,
    blocks: &mut Vec<Block>,
) -> (r: Result<(), SimulationError>)
    requires
        run_ok(*config, authorities@, old(blocks)@, old(events)@),
        forall|k: int| 0 <= k < made@.len() ==> from_committee(#[trigger] made@[k]@, authorities@.len() as nat),
    ensures
        r is Ok ==> run_ok(*config, authorities@, final(blocks)@, final(events)@),
        r is Err ==> (r matches Err(SimulationError::Config(m)) && m@ == "network outcome timestamp overflow"@),
        at + config.latency_max_ms <= u64::MAX ==> r is Ok,
        r is Ok ==> block_views(final(blocks)@) == block_views(old(blocks)@) + block_views(made@),
        r is Ok ==> final(events)@.len() >= old(events)@.len(),
        r is Ok ==> event_views(final(events)@).take(old(events)@.len() as int) == event_views(old(events)@)
            && broadcasts(event_views(final(events)@).skip(old(events)@.len() as int), block_views(made@), authorities@, at,
                config.latency_min_ms, config.latency_max_ms),
        final(draws).seed() == old(draws).seed(),
        r is Ok ==> (event_views(final(events)@).skip(old(events)@.len() as int), final(draws).calls())
            == sent(old(draws).seed(), old(draws).calls(), block_views(made@), authorities@, at,
                config.latency_min_ms, config.latency_max_ms, network_loss(*config)),
{
    let ghost start = block_views(blocks@);
    let ghost ev0 = event_views(events@);
    let ghost seed = draws.seed();
    let ghost c0 = draws.calls();
    let mut k: usize = 0;
    proof {
        assert(block_views(made@.take(0)) =~= Seq::<BlockView>::empty());
        assert(start + block_views(made@.take(0)) =~= start);
        assert(event_views(events@).take(ev0.len() as int) =~= ev0);
        assert(event_views(events@).skip(ev0.len() as int) =~= Seq::<EventView>::empty());
        assert(sent(seed, c0, block_views(made@.take(0)), authorities@, at, config.latency_min_ms, config.latency_max_ms,
            network_loss(*config)) == (Seq::<EventView>::empty(), c0));
    }
    while k < made.len()
        invariant
            k <= made@.len(),
            run_ok(*config, authorities@, blocks@, events@),
            forall|j: int| 0 <= j < made@.len() ==> from_committee(#[trigger] made@[j]@, authorities@.len() as nat),
            block_views(blocks@) == start + block_views(made@.take(k as int)),
            events@.len() >= ev0.len(),
            event_views(events@).take(ev0.len() as int) == ev0,
            broadcasts(event_views(events@).skip(ev0.len() as int), block_views(made@.take(k as int)), authorities@, at,
                config.latency_min_ms, config.latency_max_ms),
            draws.seed() == seed,
            seed == old(draws).seed(),
            c0 == old(draws).calls(),
            sent(seed, c0, block_views(made@.take(k as int)), authorities@, at, config.latency_min_ms, config.latency_max_ms,
                network_loss(*config)) == (event_views(events@).skip(ev0.len() as int), draws.calls()),
        decreases made@.len() - k,
    {
        let ghost ev_before = event_views(events@);
        let ghost calls_before = draws.calls();
        let b = made[k].duplicate();
        assert(from_committee(made@[k as int]@, authorities@.len() as nat));
        match emit(draws, config, b, at, authorities, events, blocks) {
            Ok(()) => {},
            Err(e) => return Err(e),
        }
        proof {
            assert(block_views(made@.take(k + 1)) =~= block_views(made@.take(k as int)).push(made@[k as int]@));
            assert(start + block_views(made@.take(k + 1)) =~= (start + block_views(made@.take(k as int))).push(made@[k as int]@));
            let ev = event_views(events@);
            let seg = ev.skip(ev_before.len() as int);
            assert(ev =~= ev_before + seg);
            assert(ev.take(ev0.len() as int) =~= ev_before.take(ev0.len() as int));
            assert(ev.skip(ev0.len() as int) =~= ev_before.skip(ev0.len() as int) + seg);
            lemma_broadcasts_one(seg, made@[k as int]@, authorities@, at, config.latency_min_ms, config.latency_max_ms);
            lemma_broadcasts_append(ev_before.skip(ev0.len() as int), block_views(made@.take(k as int)), seg, seq![made@[k as int]@],
                authorities@, at, config.latency_min_ms, config.latency_max_ms);
            assert(block_views(made@.take(k as int)) + seq![made@[k as int]@] =~= block_views(made@.take(k + 1)));
            let lo = config.latency_min_ms;
            let hi = config.latency_max_ms;
            lemma_sent_one(seed, calls_before, made@[k as int]@, authorities@, at, lo, hi, network_loss(*config));
            lemma_sent_append(seed, c0, block_views(made@.take(k as int)), seq![made@[k as int]@], authorities@, at, lo, hi, network_loss(*config));
        }
        k = k + 1;
    }
    proof {
        assert(made@.take(made@.len() as int) =~= made@);
    }
    Ok(())
}

proof fn lemma_built_from_member(b: BlockView, authorities: Seq<Authority>, stakes: Seq<u64>, i: int, round: u32, slot: u32, variant: u32, parents: Set<Seq<char>>)
    requires
        authority_views(authorities) == named_committee(stakes),
        0 <= i < authorities.len(),
        built_block(b, authorities[i].id@, round, slot, variant, parents),
    ensures
        from_committee(b, authorities.len() as nat),
{
    lemma_member_name(authorities, stakes, i);
    assert(b.author == authority_name(i as nat));
}

/// No two members share an id.
pub open spec fn ids_distinct(authorities: Seq<Authority>) -> bool {
    forall|a: int, b: int| 0 <= a < b < authorities.len() ==> #[trigger] authorities[a].id@ != #[trigger] authorities[b].id@
}

/// Every block of `s` has canonical parents and a round inside its wave, each of its
/// parents names a block of `s` one round below in the same slot, and no two blocks share
/// author, round, slot and variant.
pub open spec fn well_shaped(s: Seq<BlockView>) -> bool {
    &&& forall|j: int| 0 <= j < s.len() ==> adjacent_ascending((#[trigger] s[j]).parents) && round_in_wave(s[j].round, s[j].slot)
    &&& forall|j: int, k: int| 0 <= j < s.len() && 0 <= k < s[j].parents.len() ==>
        exists|i: int| 0 <= i < s.len() && s[i].id == #[trigger] s[j].parents[k] && s[i].slot == s[j].slot && s[i].round + 1 == s[j].round
    &&& keys_distinct(s, |b: BlockView| identity_of(b))
}

/// Every block of `s` was issued before round `round` of `slot` reached member `i`: in
/// an earlier slot, an earlier round, or that round by one of the first `i` members.
pub open spec fn issued_before(s: Seq<BlockView>, authorities: Seq<Authority>, slot: u32, round: int, i: int) -> bool {
    forall|j: int| 0 <= j < s.len() ==> {
        ||| (#[trigger] s[j]).slot < slot
        ||| s[j].slot == slot && s[j].round < round
        ||| s[j].slot == slot && s[j].round == round && exists|a: int| 0 <= a < i && s[j].author == authorities[a].id@
    }
}

proof fn lemma_issued_next_round(s: Seq<BlockView>, authorities: Seq<Authority>, slot: u32, round: int, i: int)
    requires
        issued_before(s, authorities, slot, round, i),
    ensures
        issued_before(s, authorities, slot, round + 1, 0),
{
    assert forall|j: int| 0 <= j < s.len() implies {
        ||| (#[trigger] s[j]).slot < slot
        ||| s[j].slot == slot && s[j].round < round + 1
        ||| s[j].slot == slot && s[j].round == round + 1 && exists|a: int| 0 <= a < 0 && s[j].author == authorities[a].id@
    } by {
    }
}

/// Blocks issued by member `i` at round `round` of `slot`, with distinct variants, canonical
/// parents and parents already recorded one round below, keep a run well shaped.
proof fn lemma_issue(old: Seq<BlockView>, made: Seq<BlockView>, authorities: Seq<Authority>, slot: u32, round: u32, i: int, view: Seq<Seq<char>>)
    requires
        well_shaped(old),
        issued_before(old, authorities, slot, round as int, i),
        ids_distinct(authorities),
        0 <= i < authorities.len(),
        round_in_wave(round, slot),
        issued_by(made, authorities[i].id@, round, slot, view, old),
        round > 0 || forall|k: int| 0 <= k < made.len() ==> #[trigger] made[k].parents.len() == 0,
    ensures
        well_shaped(old + made),
        issued_before(old + made, authorities, slot, round as int, i + 1),
{
    let s = old + made;
    let n = old.len();
    assert forall|j: int| 0 <= j < s.len() implies adjacent_ascending((#[trigger] s[j]).parents) && round_in_wave(s[j].round, s[j].slot) by {
        if j < n {
            assert(s[j] == old[j]);
        } else {
            let b = made[j - n];
            assert(s[j] == b);
            assert(strictly_ascending(b.parents));
            assert forall|q: int| 0 <= q < b.parents.len() - 1 implies text_lt(#[trigger] b.parents[q], b.parents[q + 1]) by {
                assert(text_lt(b.parents[q], b.parents[q + 1]));
            }
        }
    }
    assert forall|j: int, k: int| 0 <= j < s.len() && 0 <= k < s[j].parents.len() implies
        exists|m: int| 0 <= m < s.len() && s[m].id == #[trigger] s[j].parents[k] && s[m].slot == s[j].slot && s[m].round + 1 == s[j].round by {
        if j < n {
            assert(s[j] == old[j]);
            let m = choose|m: int| 0 <= m < old.len() && old[m].id == #[trigger] old[j].parents[k] && old[m].slot == old[j].slot && old[m].round + 1 == old[j].round;
            assert(s[m] == old[m]);
        } else {
            let b = made[j - n];
            assert(s[j] == b);
            assert(b.parents.len() > 0);
            assert forall|x: Seq<char>| #[trigger] b.parents.to_set().contains(x) implies phase_ids(view, old, slot, (round - 1) as u32).contains(x) by {
                assert(made[j - n].parents.to_set().contains(x));
            }
            lemma_parent_known(b, view, old, slot, (round - 1) as u32, k);
            let m = choose|m: int| 0 <= m < old.len() && old[m].id == b.parents[k] && old[m].slot == slot && old[m].round == (round - 1) as u32;
            assert(s[m] == old[m]);
        }
    }
    assert forall|a: int, b: int| #![trigger s[a], s[b]] 0 <= a < b < s.len() implies (|x: BlockView| identity_of(x))(s[a]) != (|x: BlockView| identity_of(x))(s[b]) by {
        if b < n {
            assert(s[a] == old[a] && s[b] == old[b]);
        } else if a < n {
            assert(s[a] == old[a] && s[b] == made[b - n]);
            if old[a].slot == slot && old[a].round == round {
                let w = choose|w: int| 0 <= w < i && old[a].author == authorities[w].id@;
                assert(authorities[w].id@ != authorities[i].id@);
            }
        } else {
            assert(s[a] == made[a - n] && s[b] == made[b - n]);
        }
    }
    assert forall|j: int| 0 <= j < s.len() implies {
        ||| (#[trigger] s[j]).slot < slot
        ||| s[j].slot == slot && s[j].round < round
        ||| s[j].slot == slot && s[j].round == round && exists|a: int| 0 <= a < i + 1 && s[j].author == authorities[a].id@
    } by {
        if j < n {
            assert(s[j] == old[j]);
        } else {
            assert(s[j] == made[j - n]);
            assert(s[j].author == authorities[i].id@);
        }
    }
}

/// `phase_ids` keeps a subsequence of the view: ascending views give ascending ids.
pub(crate) proof fn lemma_phase_ids_ascending(view: Seq<Seq<char>>, known: Seq<BlockView>, slot: u32, round: u32)
    requires
        strictly_ascending(view),
    ensures
        strictly_ascending(phase_ids(view, known, slot, round)),
        forall|x: Seq<char>| #[trigger] phase_ids(view, known, slot, round).contains(x) ==> view.contains(x),
    decreases view.len(),
{
    if view.len() > 0 {
        let d = view.drop_last();
        assert(strictly_ascending(d)) by {
            assert forall|i: int, j: int| 0 <= i < j < d.len() implies text_lt(#[trigger] d[i], #[trigger] d[j]) by {
                assert(d[i] == view[i] && d[j] == view[j]);
            }
        }
        lemma_phase_ids_ascending(d, known, slot, round);
        let rest = phase_ids(d, known, slot, round);
        let ids = phase_ids(view, known, slot, round);
        assert forall|x: Seq<char>| #[trigger] ids.contains(x) implies view.contains(x) by {
            if rest.contains(x) {
                let a = choose|a: int| 0 <= a < d.len() && d[a] == x;
                assert(view[a] == x);
            } else {
                let a = choose|a: int| 0 <= a < ids.len() && ids[a] == x;
                assert(a == rest.len());
                assert(view[view.len() - 1] == x);
            }
        }
        if ids.len() > rest.len() {
            assert forall|i: int, j: int| 0 <= i < j < ids.len() implies text_lt(#[trigger] ids[i], #[trigger] ids[j]) by {
                if j < rest.len() {
                    assert(ids[i] == rest[i] && ids[j] == rest[j]);
                } else {
                    assert(ids[i] == rest[i]);
                    assert(rest.contains(rest[i]));
                    let a = choose|a: int| 0 <= a < d.len() && d[a] == rest[i];
                    assert(text_lt(view[a], view[view.len() - 1]));
                }
            }
        }
    }
}

/// Every id that `phase_ids` keeps names a known block of that slot and round.
pub(crate) proof fn lemma_phase_ids_known(view: Seq<Seq<char>>, known: Seq<BlockView>, slot: u32, round: u32, p: int)
    requires
        0 <= p < phase_ids(view, known, slot, round).len(),
    ensures
        exists|m: int| 0 <= m < known.len() && known[m].id == phase_ids(view, known, slot, round)[p]
            && known[m].slot == slot && known[m].round == round,
    decreases view.len(),
{
    let rest = phase_ids(view.drop_last(), known, slot, round);
    if p < rest.len() {
        lemma_phase_ids_known(view.drop_last(), known, slot, round, p);
    } else {
        lemma_latest_with_id_known(known, view.last());
    }
}

pub(crate) proof fn lemma_latest_with_id_known(known: Seq<BlockView>, id: Seq<char>)
    ensures
        latest_with_id(known, id) matches Some(b) ==> exists|m: int| 0 <= m < known.len() && known[m] == b && b.id == id,
    decreases known.len(),
{
    if known.len() > 0 {
        if known.last().id != id {
            lemma_latest_with_id_known(known.drop_last(), id);
            match latest_with_id(known, id) {
                Some(b) => {
                    let m = choose|m: int| 0 <= m < known.drop_last().len() && known.drop_last()[m] == b && b.id == id;
                    assert(known[m] == b);
                },
                None => {},
            }
        } else {
            assert(known[known.len() - 1] == known.last());
        }
    }
}

/// The block that `Block::new` builds from these fields and strictly ascending `parents`.
pub open spec fn block_view_of(author: Seq<char>, round: u32, slot: u32, variant: u32, parents: Seq<Seq<char>>) -> BlockView {
    BlockView { id: block_id_text(author, round, slot, variant, parents), author, round, slot, variant, parents }
}

/// Variants `0..count` of one author's block over the parents `ps`.
pub open spec fn variants_view(author: Seq<char>, round: u32, slot: u32, count: nat, ps: Seq<Seq<char>>) -> Seq<BlockView> {
    Seq::new(count, |k: int| block_view_of(author, round, slot, k as u32, ps))
}

/// One author's support blocks for the visible proposals `av`: one per proposal (as
/// variants `0, 1, ...`) from a Byzantine author seeing several, else one over all of them.
pub open spec fn support_view(author: Seq<char>, round: u32, slot: u32, av: Seq<Seq<char>>, byzantine: bool) -> Seq<BlockView> {
    if byzantine && av.len() > 1 {
        Seq::new(av.len(), |k: int| block_view_of(author, round, slot, k as u32, seq![av[k]]))
    } else {
        seq![block_view_of(author, round, slot, 0, av)]
    }
}

/// The text of each member's local view.
pub open spec fn view_texts(vs: Seq<Vec<String>>) -> Seq<Seq<Seq<char>>> {
    vs.map_values(|v: Vec<String>| texts(v@))
}

/// The proposals of wave `slot` (round `base`): none from a crashed leader, two variants
/// from a Byzantine leader, one otherwise; the leader is member `slot % n`.
pub open spec fn proposals_of(config: SimulationConfig, authorities: Seq<Authority>, slot: u32, base: u32) -> Seq<BlockView> {
    let leader = (slot as int) % (authorities.len() as int);
    if config.crash_authorities@.contains(leader as u32) {
        Seq::empty()
    } else {
        variants_view(authorities[leader].id@, base, slot,
            if config.byzantine_authorities@.contains(leader as u32) { 2 } else { 1 }, Seq::empty())
    }
}

/// The support blocks of member `i` with local view `view` when `known` are recorded.
pub open spec fn support_made(config: SimulationConfig, authorities: Seq<Authority>, view: Seq<Seq<char>>, known: Seq<BlockView>, slot: u32, rounds: WaveRounds, i: int) -> Seq<BlockView> {
    let av = phase_ids(view, known, slot, rounds.proposal);
    if config.crash_authorities@.contains(i as u32) || av.len() == 0 {
        Seq::empty()
    } else {
        support_view(authorities[i].id@, rounds.support, slot, av, config.byzantine_authorities@.contains(i as u32))
    }
}

/// The support blocks that members `i, i+1, ...` issue, in turn, each seeing the blocks
/// recorded before it.
pub open spec fn support_round(config: SimulationConfig, authorities: Seq<Authority>, views: Seq<Seq<Seq<char>>>, known: Seq<BlockView>, slot: u32, rounds: WaveRounds, i: int) -> Seq<BlockView>
    decreases authorities.len() - i,
{
    if i >= authorities.len() {
        Seq::empty()
    } else {
        let made = support_made(config, authorities, views[i], known, slot, rounds, i);
        made + support_round(config, authorities, views, known + made, slot, rounds, i + 1)
    }
}

/// The certificate blocks of member `i` with local view `view` when `known` are recorded:
/// over every visible support block, two variants from a Byzantine member.
pub open spec fn certificates_made(config: SimulationConfig, authorities: Seq<Authority>, view: Seq<Seq<char>>, known: Seq<BlockView>, slot: u32, rounds: WaveRounds, i: int) -> Seq<BlockView> {
    let sp = phase_ids(view, known, slot, rounds.support);
    if config.crash_authorities@.contains(i as u32) || sp.len() == 0 {
        Seq::empty()
    } else {
        variants_view(authorities[i].id@, rounds.certificate, slot,
            if config.byzantine_authorities@.contains(i as u32) { 2 } else { 1 }, sp)
    }
}

/// The certificate blocks that members `i, i+1, ...` issue, in turn.
pub open spec fn certificate_round(config: SimulationConfig, authorities: Seq<Authority>, views: Seq<Seq<Seq<char>>>, known: Seq<BlockView>, slot: u32, rounds: WaveRounds, i: int) -> Seq<BlockView>
    decreases authorities.len() - i,
{
    if i >= authorities.len() {
        Seq::empty()
    } else {
        let made = certificates_made(config, authorities, views[i], known, slot, rounds, i);
        made + certificate_round(config, authorities, views, known + made, slot, rounds, i + 1)
    }
}

/// A block built with strictly ascending parents is the block of its fields.
proof fn lemma_built_view(b: BlockView, author: Seq<char>, round: u32, slot: u32, variant: u32, ps: Seq<Seq<char>>)
    requires
        built_block(b, author, round, slot, variant, ps.to_set()),
        strictly_ascending(ps),
    ensures
        b == block_view_of(author, round, slot, variant, ps),
{
    crate::lexical::lemma_ascending_unique(b.parents, ps);
}

/// Variants built by `variants_of` over strictly ascending parents.
proof fn lemma_variants_views(made: Seq<Block>, author: Seq<char>, round: u32, slot: u32, count: nat, ps: Seq<Seq<char>>)
    requires
        made.len() == count,
        forall|k: int| 0 <= k < count ==> built_block(#[trigger] made[k]@, author, round, slot, k as u32, ps.to_set()),
        strictly_ascending(ps),
    ensures
        block_views(made) == variants_view(author, round, slot, count, ps),
{
    assert forall|k: int| 0 <= k < count implies #[trigger] block_views(made)[k] == variants_view(author, round, slot, count, ps)[k] by {
        assert(built_block(made[k]@, author, round, slot, k as u32, ps.to_set()));
        lemma_built_view(made[k]@, author, round, slot, k as u32, ps);
    }
    assert(block_views(made) =~= variants_view(author, round, slot, count, ps));
}

/// Support blocks built by `support_blocks_of` over strictly ascending visible proposals.
proof fn lemma_support_views(made: Seq<Block>, author: Seq<char>, round: u32, slot: u32, av: Seq<Seq<char>>, byzantine: bool)
    requires
        strictly_ascending(av),
        byzantine && av.len() > 1 ==> made.len() == av.len()
            && forall|k: int| 0 <= k < made.len() ==> built_block(#[trigger] made[k]@, author, round, slot, k as u32, set![av[k]]),
        !(byzantine && av.len() > 1) ==> made.len() == 1 && built_block(made[0]@, author, round, slot, 0, av.to_set()),
    ensures
        block_views(made) == support_view(author, round, slot, av, byzantine),
{
    let target = support_view(author, round, slot, av, byzantine);
    if byzantine && av.len() > 1 {
        assert forall|k: int| 0 <= k < made.len() implies #[trigger] block_views(made)[k] == target[k] by {
            assert(built_block(made[k]@, author, round, slot, k as u32, set![av[k]]));
            assert(seq![av[k]].to_set() =~= set![av[k]]) by {
                assert(seq![av[k]][0] == av[k]);
            }
            lemma_built_view(made[k]@, author, round, slot, k as u32, seq![av[k]]);
        }
    } else {
        lemma_built_view(made[0]@, author, round, slot, 0, av);
    }
    assert(block_views(made) =~= target);
}

/// `support_blocks_of` over the visible proposals `av` gives `support_view`.
proof fn lemma_support_views_of(made: Seq<Block>, author: Seq<char>, round: u32, slot: u32, av: Seq<String>, byzantine: bool)
    requires
        strictly_ascending(texts(av)),
        byzantine && av.len() > 1 ==> made.len() == av.len()
            && forall|k: int| 0 <= k < made.len() ==> built_block(#[trigger] made[k]@, author, round, slot, k as u32, set![av[k]@]),
        !(byzantine && av.len() > 1) ==> made.len() == 1 && built_block(made[0]@, author, round, slot, 0, texts(av).to_set()),
    ensures
        block_views(made) == support_view(author, round, slot, texts(av), byzantine),
{
    let t = texts(av);
    assert forall|k: int| 0 <= k < av.len() implies #[trigger] t[k] == av[k]@ by {}
    lemma_support_views(made, author, round, slot, t, byzantine);
}

/// One member's blocks and their broadcasts extend what a phase has issued so far.
proof fn lemma_round_step(
    ev0: Seq<EventView>,
    old_ev: Seq<EventView>,
    new_ev: Seq<EventView>,
    bv0: Seq<BlockView>,
    added: Seq<BlockView>,
    mv: Seq<BlockView>,
    auths: Seq<Authority>,
    at: u64,
    lo: u64,
    hi: u64,
)
    requires
        old_ev.len() >= ev0.len(),
        old_ev.take(ev0.len() as int) == ev0,
        broadcasts(old_ev.skip(ev0.len() as int), added, auths, at, lo, hi),
        new_ev.take(old_ev.len() as int) == old_ev,
        new_ev.len() >= old_ev.len(),
        broadcasts(new_ev.skip(old_ev.len() as int), mv, auths, at, lo, hi),
    ensures
        new_ev.len() >= ev0.len(),
        new_ev.take(ev0.len() as int) == ev0,
        broadcasts(new_ev.skip(ev0.len() as int), added + mv, auths, at, lo, hi),
{
    let seg = new_ev.skip(old_ev.len() as int);
    assert(new_ev =~= old_ev + seg);
    assert(new_ev.take(ev0.len() as int) =~= old_ev.take(ev0.len() as int));
    assert(new_ev.skip(ev0.len() as int) =~= old_ev.skip(ev0.len() as int) + seg);
    lemma_broadcasts_append(old_ev.skip(ev0.len() as int), added, seg, mv, auths, at, lo, hi);
}

/// One member's broadcasts extend the draws and events of a phase so far.
proof fn lemma_sent_step(
    seed: u64,
    c0: Seq<Draw>,
    c_old: Seq<Draw>,
    c_new: Seq<Draw>,
    ev0: Seq<EventView>,
    old_ev: Seq<EventView>,
    new_ev: Seq<EventView>,
    added: Seq<BlockView>,
    mv: Seq<BlockView>,
    auths: Seq<Authority>,
    at: u64,
    lo: u64,
    hi: u64,
    loss: Bernoulli,
)
    requires
        old_ev.len() >= ev0.len(),
        new_ev.len() >= old_ev.len(),
        new_ev.take(old_ev.len() as int) == old_ev,
        sent(seed, c0, added, auths, at, lo, hi, loss) == (old_ev.skip(ev0.len() as int), c_old),
        sent(seed, c_old, mv, auths, at, lo, hi, loss) == (new_ev.skip(old_ev.len() as int), c_new),
    ensures
        sent(seed, c0, added + mv, auths, at, lo, hi, loss) == (new_ev.skip(ev0.len() as int), c_new),
{
    lemma_sent_append(seed, c0, added, mv, auths, at, lo, hi, loss);
    let seg = new_ev.skip(old_ev.len() as int);
    assert(new_ev =~= old_ev + seg);
    assert(new_ev.skip(ev0.len() as int) =~= old_ev.skip(ev0.len() as int) + seg);
}

/// Issuing more members' blocks keeps earlier blocks issued before the later point.
proof fn lemma_issued_widen(s: Seq<BlockView>, authorities: Seq<Authority>, slot: u32, round: int, i: int, j: int)
    requires
        issued_before(s, authorities, slot, round, i),
        i <= j,
    ensures
        issued_before(s, authorities, slot, round, j),
{
    assert forall|x: int| 0 <= x < s.len() implies {
        ||| (#[trigger] s[x]).slot < slot
        ||| s[x].slot == slot && s[x].round < round
        ||| s[x].slot == slot && s[x].round == round && exists|a: int| 0 <= a < j && s[x].author == authorities[a].id@
    } by {
        if s[x].slot == slot && s[x].round == round {
            let a = choose|a: int| 0 <= a < i && s[x].author == authorities[a].id@;
        }
    }
}

/// A parent of `b` drawn from the ids that `phase_ids` keeps names a known block of that
/// slot and round.
proof fn lemma_parent_known(b: BlockView, view: Seq<Seq<char>>, known: Seq<BlockView>, slot: u32, round: u32, q: int)
    requires
        0 <= q < b.parents.len(),
        forall|x: Seq<char>| #[trigger] b.parents.to_set().contains(x) ==> phase_ids(view, known, slot, round).contains(x),
    ensures
        exists|m: int| 0 <= m < known.len() && known[m].id == b.parents[q] && known[m].slot == slot && known[m].round == round,
{
    assert(b.parents.to_set().contains(b.parents[q]));
    let ids = phase_ids(view, known, slot, round);
    assert(ids.contains(b.parents[q]));
    let p = choose|p: int| 0 <= p < ids.len() && ids[p] == b.parents[q];
    lemma_phase_ids_known(view, known, slot, round, p);
}

/// The blocks of one member built by `variants_of` or `support_blocks_of`, by their facts.
pub open spec fn issued_by(made: Seq<BlockView>, author: Seq<char>, round: u32, slot: u32, view: Seq<Seq<char>>, known: Seq<BlockView>) -> bool {
    &&& forall|k: int| 0 <= k < made.len() ==> {
        &&& (#[trigger] made[k]).author == author
        &&& made[k].round == round
        &&& made[k].slot == slot
        &&& made[k].variant == k
        &&& strictly_ascending(made[k].parents)
    }
    &&& forall|k: int, x: Seq<char>| 0 <= k < made.len() && #[trigger] made[k].parents.to_set().contains(x)
        ==> phase_ids(view, known, slot, (round - 1) as u32).contains(x)
}

/// Blocks built by member `author` with variants `0, 1, ...` and parents drawn from the
/// ids that `phase_ids` keeps satisfy `issued_by`.
proof fn lemma_built_issued(
    made: Seq<Block>,
    author: Seq<char>,
    round: u32,
    slot: u32,
    parents: spec_fn(int) -> Set<Seq<char>>,
    view: Seq<Seq<char>>,
    known: Seq<BlockView>,
)
    requires
        made.len() <= 2,
        forall|k: int| 0 <= k < made.len() ==> built_block(#[trigger] made[k]@, author, round, slot, k as u32, parents(k)),
        forall|k: int, x: Seq<char>| 0 <= k < made.len() && #[trigger] parents(k).contains(x)
            ==> phase_ids(view, known, slot, (round - 1) as u32).contains(x),
    ensures
        issued_by(block_views(made), author, round, slot, view, known),
{
    let mv = block_views(made);
    assert forall|k: int| 0 <= k < mv.len() implies {
        &&& (#[trigger] mv[k]).author == author
        &&& mv[k].round == round
        &&& mv[k].slot == slot
        &&& mv[k].variant == k
        &&& strictly_ascending(mv[k].parents)
    } by {
        assert(mv[k] == made[k]@);
        assert(built_block(made[k]@, author, round, slot, k as u32, parents(k)));
    }
    assert forall|k: int, x: Seq<char>| 0 <= k < mv.len() && #[trigger] mv[k].parents.to_set().contains(x)
        implies phase_ids(view, known, slot, (round - 1) as u32).contains(x) by {
        assert(mv[k] == made[k]@);
        assert(built_block(made[k]@, author, round, slot, k as u32, parents(k)));
        assert(parents(k).contains(x));
    }
}

/// Every proposal-round block of `s` was issued by its slot's leader, as variant 0 or 1.
pub open spec fn proposals_by_leader(s: Seq<BlockView>, authorities: Seq<Authority>) -> bool {
    forall|j: int| 0 <= j < s.len() && (#[trigger] s[j]).round == 3 * s[j].slot ==>
        s[j].variant < 2 && s[j].author == authorities[(s[j].slot as int) % (authorities.len() as int)].id@
}

/// Blocks of round `round` of `slot` keep proposals with the leader when they are not
/// proposals or are at most two variants of the leader.
proof fn lemma_leader_extend(old: Seq<BlockView>, made: Seq<BlockView>, authorities: Seq<Authority>, slot: u32, round: int, i: int)
    requires
        proposals_by_leader(old, authorities),
        forall|k: int| 0 <= k < made.len() ==> {
            &&& (#[trigger] made[k]).author == authorities[i].id@
            &&& made[k].round == round
            &&& made[k].slot == slot
            &&& made[k].variant == k
        },
        round != 3 * slot || (i == (slot as int) % (authorities.len() as int) && made.len() <= 2),
    ensures
        proposals_by_leader(old + made, authorities),
{
    let s = old + made;
    assert forall|j: int| 0 <= j < s.len() && (#[trigger] s[j]).round == 3 * s[j].slot implies
        s[j].variant < 2 && s[j].author == authorities[(s[j].slot as int) % (authorities.len() as int)].id@ by {
        if j < old.len() {
            assert(s[j] == old[j]);
        } else {
            assert(s[j] == made[j - old.len()]);
        }
    }
}

/// Every support block of `s` whose author is outside `z` is that author's variant 0.
pub open spec fn honest_supports_single(s: Seq<BlockView>, z: Set<Seq<char>>) -> bool {
    forall|j: int| 0 <= j < s.len() && (#[trigger] s[j]).round == 3 * s[j].slot + 1 && !z.contains(s[j].author) ==> s[j].variant == 0
}

/// Blocks of one author keep honest support single when they are not support blocks,
/// their author is in `z`, or there is only one of them.
proof fn lemma_honest_extend(old: Seq<BlockView>, made: Seq<BlockView>, z: Set<Seq<char>>, slot: u32, round: int, author: Seq<char>)
    requires
        honest_supports_single(old, z),
        forall|k: int| 0 <= k < made.len() ==> {
            &&& (#[trigger] made[k]).author == author
            &&& made[k].round == round
            &&& made[k].slot == slot
            &&& made[k].variant == k
        },
        round != 3 * slot + 1 || z.contains(author) || made.len() <= 1,
    ensures
        honest_supports_single(old + made, z),
{
    let s = old + made;
    assert forall|j: int| 0 <= j < s.len() && (#[trigger] s[j]).round == 3 * s[j].slot + 1 && !z.contains(s[j].author) implies s[j].variant == 0 by {
        if j < old.len() {
            assert(s[j] == old[j]);
        } else {
            assert(s[j] == made[j - old.len()]);
        }
    }
}

/// A view of a slot's proposals names at most two of them: proposals come from the
/// leader, as variants 0 and 1, and no two blocks share an identity.
proof fn lemma_available_small(av: Seq<Seq<char>>, view: Seq<Seq<char>>, known: Seq<BlockView>, slot: u32, authorities: Seq<Authority>)
    requires
        strictly_ascending(av),
        av == phase_ids(view, known, slot, (3 * slot) as u32),
        3 * slot <= u32::MAX,
        proposals_by_leader(known, authorities),
        keys_distinct(known, |b: BlockView| identity_of(b)),
    ensures
        av.len() <= 2,
{
    if av.len() > 2 {
        lemma_phase_ids_known(view, known, slot, (3 * slot) as u32, 0);
        lemma_phase_ids_known(view, known, slot, (3 * slot) as u32, 1);
        lemma_phase_ids_known(view, known, slot, (3 * slot) as u32, 2);
        let m0 = choose|m: int| 0 <= m < known.len() && known[m].id == av[0] && known[m].slot == slot && known[m].round == (3 * slot) as u32;
        let m1 = choose|m: int| 0 <= m < known.len() && known[m].id == av[1] && known[m].slot == slot && known[m].round == (3 * slot) as u32;
        let m2 = choose|m: int| 0 <= m < known.len() && known[m].id == av[2] && known[m].slot == slot && known[m].round == (3 * slot) as u32;
        assert(text_lt(av[0], av[1]) && text_lt(av[0], av[2]) && text_lt(av[1], av[2]));
        lemma_text_lt_irreflexive(av[0]);
        lemma_text_lt_irreflexive(av[1]);
        assert(m0 != m1 && m0 != m2 && m1 != m2);
        let f = |b: BlockView| identity_of(b);
        assert(f(known[m0]) != f(known[m1])) by {
            if m0 < m1 { assert(f(known[m0]) != f(known[m1])); } else { assert(f(known[m1]) != f(known[m0])); }
        }
        assert(f(known[m0]) != f(known[m2])) by {
            if m0 < m2 { assert(f(known[m0]) != f(known[m2])); } else { assert(f(known[m2]) != f(known[m0])); }
        }
        assert(f(known[m1]) != f(known[m2])) by {
            if m1 < m2 { assert(f(known[m1]) != f(known[m2])); } else { assert(f(known[m2]) != f(known[m1])); }
        }
        assert(known[m0].variant < 2 && known[m1].variant < 2 && known[m2].variant < 2);
    }
}

/// The slot leader (unless crashed) proposes; a Byzantine leader proposes two variants.
#[verifier::spinoff_prover]
fn propose_phase(
    draws: &mut NetworkDraws,
    config: &SimulationConfig,
    slot: u32,
    base: u32,
    wave_start: u64,
    authorities: &Vec<Authority>,
    events: &mut Vec<Event>,
    blocks: &mut Vec<Block>,
) -> (r: Result<(), SimulationError>)
    requires
        run_ok(*config, authorities@, old(blocks)@, old(events)@),
        authorities@.len() > 0,
        well_shaped(block_views(old(blocks)@)),
        issued_before(block_views(old(blocks)@), authorities@, slot, base as int, 0),
        ids_distinct(authorities@),
        round_in_wave(base, slot),
        base == 3 * slot,
        proposals_by_leader(block_views(old(blocks)@), authorities@),
        authorities@.len() <= 0x1_0000_0000 ==> honest_supports_single(block_views(old(blocks)@), named_set(config.byzantine_authorities@)),
    ensures
        r is Ok ==> proposals_by_leader(block_views(final(blocks)@), authorities@),
        r is Ok && authorities@.len() <= 0x1_0000_0000 ==> honest_supports_single(block_views(final(blocks)@), named_set(config.byzantine_authorities@)),
        r is Ok ==> run_ok(*config, authorities@, final(blocks)@, final(events)@),
        r is Err ==> (r matches Err(SimulationError::Config(m)) && m@ == "network outcome timestamp overflow"@),
        wave_start + config.latency_max_ms <= u64::MAX ==> r is Ok,
        r is Ok ==> well_shaped(block_views(final(blocks)@)),
        r is Ok ==> issued_before(block_views(final(blocks)@), authorities@, slot, base + 1, 0),
        r is Ok ==> block_views(final(blocks)@) == block_views(old(blocks)@) + proposals_of(*config, authorities@, slot, base),
        r is Ok ==> final(events)@.len() >= old(events)@.len(),
        r is Ok ==> event_views(final(events)@).take(old(events)@.len() as int) == event_views(old(events)@)
            && broadcasts(event_views(final(events)@).skip(old(events)@.len() as int), proposals_of(*config, authorities@, slot, base),
                authorities@, wave_start, config.latency_min_ms, config.latency_max_ms),
        final(draws).seed() == old(draws).seed(),
        r is Ok ==> sent(old(draws).seed(), old(draws).calls(), proposals_of(*config, authorities@, slot, base), authorities@, wave_start,
            config.latency_min_ms, config.latency_max_ms, network_loss(*config))
            == (event_views(final(events)@).skip(old(events)@.len() as int), final(draws).calls()),
{
    let leader = (slot as usize) % authorities.len();
    if has_index(config.crash_authorities.as_slice(), leader as u32) {
        proof {
            lemma_issued_next_round(block_views(blocks@), authorities@, slot, base as int, 0);
            assert(block_views(blocks@) + proposals_of(*config, authorities@, slot, base) =~= block_views(blocks@));
            assert(event_views(events@).take(events@.len() as int) =~= event_views(events@));
            assert(event_views(events@).skip(events@.len() as int) =~= Seq::<EventView>::empty());
            assert(sent(draws.seed(), draws.calls(), Seq::<BlockView>::empty(), authorities@, wave_start,
                config.latency_min_ms, config.latency_max_ms, network_loss(*config)) == (Seq::<EventView>::empty(), draws.calls()));
        }
        return Ok(());
    }
    let variants: u32 = if has_index(config.byzantine_authorities.as_slice(), leader as u32) { 2 } else { 1 };
    let no_parents: Vec<String> = Vec::new();
    let made = variants_of(&authorities[leader].id, base, slot, variants, &no_parents);
    let ghost old_bv = block_views(blocks@);
    let ghost mv = block_views(made@);
    proof {
        assert forall|k: int| 0 <= k < made@.len() implies from_committee(#[trigger] made@[k]@, authorities@.len() as nat) by {
            lemma_built_from_member(made@[k]@, authorities@, config.stakes@, leader as int, base, slot, k as u32, texts(no_parents@).to_set());
        }
        assert(texts(no_parents@).to_set() =~= Set::<Seq<char>>::empty());
        lemma_no_parents_issued(made@, authorities@[leader as int].id@, base, slot, texts(no_parents@).to_set(), old_bv);
        assert(texts(no_parents@) =~= Seq::<Seq<char>>::empty());
        lemma_variants_views(made@, authorities@[leader as int].id@, base, slot, variants as nat, texts(no_parents@));
        assert(mv == proposals_of(*config, authorities@, slot, base));
        lemma_issued_widen(old_bv, authorities@, slot, base as int, 0, leader as int);
    }
    match emit_all(draws, config, &made, wave_start, authorities, events, blocks) {
        Ok(()) => {},
        Err(e) => return Err(e),
    }
    proof {
        lemma_issue(old_bv, mv, authorities@, slot, base, leader as int, Seq::empty());
        lemma_leader_extend(old_bv, mv, authorities@, slot, base as int, leader as int);
        if authorities@.len() <= 0x1_0000_0000 {
            lemma_honest_extend(old_bv, mv, named_set(config.byzantine_authorities@), slot, base as int, authorities@[leader as int].id@);
        }
        lemma_issued_next_round(block_views(blocks@), authorities@, slot, base as int, leader + 1);
    }
    Ok(())
}

/// Blocks built without parents have no parent ids.
proof fn lemma_no_parents_issued(made: Seq<Block>, author: Seq<char>, round: u32, slot: u32, parents: Set<Seq<char>>, known: Seq<BlockView>)
    requires
        made.len() <= 2,
        forall|k: int| 0 <= k < made.len() ==> built_block(#[trigger] made[k]@, author, round, slot, k as u32, parents),
        parents == Set::<Seq<char>>::empty(),
    ensures
        issued_by(block_views(made), author, round, slot, Seq::empty(), known),
        forall|k: int| 0 <= k < block_views(made).len() ==> #[trigger] block_views(made)[k].parents.len() == 0,
{
    let mv = block_views(made);
    assert forall|k: int| 0 <= k < mv.len() implies #[trigger] mv[k].parents.len() == 0 by {
        assert(mv[k] == made[k]@);
        assert(built_block(made[k]@, author, round, slot, k as u32, parents));
        if mv[k].parents.len() > 0 {
            assert(mv[k].parents.to_set().contains(mv[k].parents[0]));
        }
    }
    assert forall|k: int| 0 <= k < mv.len() implies {
        &&& (#[trigger] mv[k]).author == author
        &&& mv[k].round == round
        &&& mv[k].slot == slot
        &&& mv[k].variant == k
        &&& strictly_ascending(mv[k].parents)
    } by {
        assert(mv[k] == made[k]@);
        assert(built_block(made[k]@, author, round, slot, k as u32, parents));
    }
    assert forall|k: int, x: Seq<char>| 0 <= k < mv.len() && #[trigger] mv[k].parents.to_set().contains(x)
        implies phase_ids(Seq::empty(), known, slot, (round - 1) as u32).contains(x) by {
        assert(mv[k] == made[k]@);
        assert(built_block(made[k]@, author, round, slot, k as u32, parents));
    }
}

/// Every live authority that sees proposals of the slot issues its support block(s).
#[verifier::spinoff_prover]
fn support_phase(
    draws: &mut NetworkDraws,
    config: &SimulationConfig,
    slot: u32,
    rounds: WaveRounds,
    support_time: u64,
    authorities: &Vec<Authority>,
    local_views: &Vec<Vec<String>>,
    events: &mut Vec<Event>,
    blocks: &mut Vec<Block>,
) -> (r: Result<(), SimulationError>)
    requires
        run_ok(*config, authorities@, old(blocks)@, old(events)@),
        local_views@.len() == authorities@.len(),
        well_shaped(block_views(old(blocks)@)),
        issued_before(block_views(old(blocks)@), authorities@, slot, rounds.support as int, 0),
        ids_distinct(authorities@),
        round_in_wave(rounds.support, slot),
        rounds.support == rounds.proposal + 1,
        rounds.proposal == 3 * slot,
        proposals_by_leader(block_views(old(blocks)@), authorities@),
        authorities@.len() <= 0x1_0000_0000 ==> honest_supports_single(block_views(old(blocks)@), named_set(config.byzantine_authorities@)),
        forall|j: int| 0 <= j < local_views@.len() ==> strictly_ascending(#[trigger] texts(local_views@[j]@)),
    ensures
        r is Ok ==> proposals_by_leader(block_views(final(blocks)@), authorities@),
        r is Ok && authorities@.len() <= 0x1_0000_0000 ==> honest_supports_single(block_views(final(blocks)@), named_set(config.byzantine_authorities@)),
        r is Ok ==> run_ok(*config, authorities@, final(blocks)@, final(events)@),
        r is Err ==> (r matches Err(SimulationError::Config(m)) && m@ == "network outcome timestamp overflow"@),
        support_time + config.latency_max_ms <= u64::MAX ==> r is Ok,
        r is Ok ==> well_shaped(block_views(final(blocks)@)),
        r is Ok ==> issued_before(block_views(final(blocks)@), authorities@, slot, rounds.support + 1, 0),
        r is Ok ==> block_views(final(blocks)@) == block_views(old(blocks)@)
            + support_round(*config, authorities@, view_texts(local_views@), block_views(old(blocks)@), slot, rounds, 0),
        r is Ok ==> final(events)@.len() >= old(events)@.len(),
        r is Ok ==> event_views(final(events)@).take(old(events)@.len() as int) == event_views(old(events)@)
            && broadcasts(event_views(final(events)@).skip(old(events)@.len() as int),
                support_round(*config, authorities@, view_texts(local_views@), block_views(old(blocks)@), slot, rounds, 0),
                authorities@, support_time, config.latency_min_ms, config.latency_max_ms),
        final(draws).seed() == old(draws).seed(),
        r is Ok ==> sent(old(draws).seed(), old(draws).calls(), support_round(*config, authorities@, view_texts(local_views@), block_views(old(blocks)@), slot, rounds, 0), authorities@, support_time,
            config.latency_min_ms, config.latency_max_ms, network_loss(*config))
            == (event_views(final(events)@).skip(old(events)@.len() as int), final(draws).calls()),
{
    let ghost views = view_texts(local_views@);
    let ghost bv0 = block_views(blocks@);
    let ghost ev0 = event_views(events@);
    let ghost target = support_round(*config, authorities@, views, bv0, slot, rounds, 0);
    let ghost mut added: Seq<BlockView> = Seq::empty();
    let ghost seed = draws.seed();
    let ghost c0 = draws.calls();
    proof {
        assert(sent(seed, c0, added, authorities@, support_time, config.latency_min_ms, config.latency_max_ms, network_loss(*config))
            == (Seq::<EventView>::empty(), c0));
        assert(bv0 + added =~= bv0);
        assert(added + target =~= target);
        assert(event_views(events@).take(ev0.len() as int) =~= ev0);
        assert(event_views(events@).skip(ev0.len() as int) =~= Seq::<EventView>::empty());
    }
    let mut i: usize = 0;
    while i < authorities.len()
        invariant
            i <= authorities@.len(),
            local_views@.len() == authorities@.len(),
            run_ok(*config, authorities@, blocks@, events@),
            well_shaped(block_views(blocks@)),
            issued_before(block_views(blocks@), authorities@, slot, rounds.support as int, i as int),
            ids_distinct(authorities@),
            round_in_wave(rounds.support, slot),
            rounds.support == rounds.proposal + 1,
            rounds.proposal == 3 * slot,
            proposals_by_leader(block_views(blocks@), authorities@),
            authorities@.len() <= 0x1_0000_0000 ==> honest_supports_single(block_views(blocks@), named_set(config.byzantine_authorities@)),
            forall|j: int| 0 <= j < local_views@.len() ==> strictly_ascending(#[trigger] texts(local_views@[j]@)),
            views == view_texts(local_views@),
            block_views(blocks@) == bv0 + added,
            added + support_round(*config, authorities@, views, bv0 + added, slot, rounds, i as int) == target,
            events@.len() >= ev0.len(),
            event_views(events@).take(ev0.len() as int) == ev0,
            broadcasts(event_views(events@).skip(ev0.len() as int), added, authorities@, support_time,
                config.latency_min_ms, config.latency_max_ms),
            draws.seed() == seed,
            seed == old(draws).seed(),
            c0 == old(draws).calls(),
            ev0.len() == old(events)@.len(),
            sent(seed, c0, added, authorities@, support_time, config.latency_min_ms, config.latency_max_ms, network_loss(*config))
                == (event_views(events@).skip(ev0.len() as int), draws.calls()),
        decreases authorities@.len() - i,
    {
        let ghost old_bv = block_views(blocks@);
        let ghost old_ev = event_views(events@);
        let ghost old_calls = draws.calls();
        let ghost made_spec = support_made(*config, authorities@, views[i as int], old_bv, slot, rounds, i as int);
        proof {
            assert(views[i as int] == texts(local_views@[i as int]@));
        }
        if !has_index(config.crash_authorities.as_slice(), i as u32) {
            let available = phase_parents(&local_views[i], blocks, slot, rounds.proposal);
            if available.len() > 0 {
                let byzantine = has_index(config.byzantine_authorities.as_slice(), i as u32);
                let ghost av = available@;
                let ghost view = texts(local_views@[i as int]@);
                let made = support_blocks_of(&authorities[i].id, rounds.support, slot, available, byzantine);
                let ghost mv = block_views(made@);
                proof {
                    lemma_phase_ids_ascending(view, old_bv, slot, rounds.proposal);
                    lemma_support_views_of(made@, authorities@[i as int].id@, rounds.support, slot, av, byzantine);
                    assert(mv == made_spec);
                    assert forall|k: int| 0 <= k < made@.len() implies from_committee(#[trigger] made@[k]@, authorities@.len() as nat) by {
                        if byzantine && av.len() > 1 {
                            lemma_built_from_member(made@[k]@, authorities@, config.stakes@, i as int, rounds.support, slot, k as u32, set![av[k]@]);
                        } else {
                            lemma_built_from_member(made@[k]@, authorities@, config.stakes@, i as int, rounds.support, slot, 0, texts(av).to_set());
                        }
                    }
                    if byzantine && av.len() > 1 {
                        lemma_phase_ids_ascending(view, old_bv, slot, rounds.proposal);
                        lemma_available_small(texts(av), view, old_bv, slot, authorities@);
                        let ps = |k: int| set![av[k]@];
                        assert forall|k: int, x: Seq<char>| 0 <= k < made@.len() && #[trigger] ps(k).contains(x)
                            implies phase_ids(view, old_bv, slot, (rounds.support - 1) as u32).contains(x) by {
                            assert(texts(av)[k] == x);
                        }
                        lemma_built_issued(made@, authorities@[i as int].id@, rounds.support, slot, ps, view, old_bv);
                    } else {
                        let ps = |k: int| texts(av).to_set();
                        assert forall|k: int, x: Seq<char>| 0 <= k < made@.len() && #[trigger] ps(k).contains(x)
                            implies phase_ids(view, old_bv, slot, (rounds.support - 1) as u32).contains(x) by {
                        }
                        lemma_built_issued(made@, authorities@[i as int].id@, rounds.support, slot, ps, view, old_bv);
                    }
                }
                match emit_all(draws, config, &made, support_time, authorities, events, blocks) {
                    Ok(()) => {},
                    Err(e) => return Err(e),
                }
                proof {
                    lemma_issue(old_bv, mv, authorities@, slot, rounds.support, i as int, view);
                    lemma_leader_extend(old_bv, mv, authorities@, slot, rounds.support as int, i as int);
                    if byzantine && authorities@.len() <= 0x1_0000_0000 {
                        lemma_member_name(authorities@, config.stakes@, i as int);
                        assert(config.byzantine_authorities@.contains(i as u32));
                        let k = choose|k: int| 0 <= k < config.byzantine_authorities@.len() && config.byzantine_authorities@[k] == i as u32;
                        assert(authority_name(config.byzantine_authorities@[k] as nat) == authority_name(i as nat));
                    }
                    if authorities@.len() <= 0x1_0000_0000 {
                        lemma_honest_extend(old_bv, mv, named_set(config.byzantine_authorities@), slot, rounds.support as int, authorities@[i as int].id@);
                    }
                    lemma_round_step(ev0, old_ev, event_views(events@), bv0, added, mv, authorities@, support_time,
                        config.latency_min_ms, config.latency_max_ms);
                    lemma_sent_step(seed, c0, old_calls, draws.calls(), ev0, old_ev, event_views(events@), added, mv,
                        authorities@, support_time, config.latency_min_ms, config.latency_max_ms, network_loss(*config));
                    added = added + mv;
                }
            } else {
                proof {
                    lemma_issued_widen(old_bv, authorities@, slot, rounds.support as int, i as int, i + 1);
                    assert(made_spec =~= Seq::<BlockView>::empty());
                }
            }
        } else {
            proof {
                lemma_issued_widen(old_bv, authorities@, slot, rounds.support as int, i as int, i + 1);
                assert(made_spec =~= Seq::<BlockView>::empty());
            }
        }
        proof {
            assert(support_round(*config, authorities@, views, old_bv, slot, rounds, i as int)
                == made_spec + support_round(*config, authorities@, views, old_bv + made_spec, slot, rounds, i + 1));
            assert(bv0 + added =~= old_bv + made_spec);
        }
        i = i + 1;
    }
    proof {
        lemma_issued_next_round(block_views(blocks@), authorities@, slot, rounds.support as int, i as int);
        assert(added =~= target);
    }
    Ok(())
}

/// Every live authority that sees support blocks of the slot issues its certificate
/// block (two variants if Byzantine) over all of them.
#[verifier::spinoff_prover]
fn certify_phase(
    draws: &mut NetworkDraws,
    config: &SimulationConfig,
    slot: u32,
    rounds: WaveRounds,
    certificate_time: u64,
    authorities: &Vec<Authority>,
    local_views: &Vec<Vec<String>>,
    events: &mut Vec<Event>,
    blocks: &mut Vec<Block>,
) -> (r: Result<(), SimulationError>)
    requires
        run_ok(*config, authorities@, old(blocks)@, old(events)@),
        local_views@.len() == authorities@.len(),
        well_shaped(block_views(old(blocks)@)),
        issued_before(block_views(old(blocks)@), authorities@, slot, rounds.certificate as int, 0),
        ids_distinct(authorities@),
        round_in_wave(rounds.certificate, slot),
        rounds.certificate == rounds.support + 1,
        rounds.certificate == 3 * slot + 2,
        proposals_by_leader(block_views(old(blocks)@), authorities@),
        authorities@.len() <= 0x1_0000_0000 ==> honest_supports_single(block_views(old(blocks)@), named_set(config.byzantine_authorities@)),
        forall|j: int| 0 <= j < local_views@.len() ==> strictly_ascending(#[trigger] texts(local_views@[j]@)),
    ensures
        r is Ok ==> proposals_by_leader(block_views(final(blocks)@), authorities@),
        r is Ok && authorities@.len() <= 0x1_0000_0000 ==> honest_supports_single(block_views(final(blocks)@), named_set(config.byzantine_authorities@)),
        r is Ok ==> run_ok(*config, authorities@, final(blocks)@, final(events)@),
        r is Err ==> (r matches Err(SimulationError::Config(m)) && m@ == "network outcome timestamp overflow"@),
        certificate_time + config.latency_max_ms <= u64::MAX ==> r is Ok,
        r is Ok ==> well_shaped(block_views(final(blocks)@)),
        r is Ok ==> issued_before(block_views(final(blocks)@), authorities@, slot, rounds.certificate + 1, 0),
        r is Ok ==> block_views(final(blocks)@) == block_views(old(blocks)@)
            + certificate_round(*config, authorities@, view_texts(local_views@), block_views(old(blocks)@), slot, rounds, 0),
        r is Ok ==> final(events)@.len() >= old(events)@.len(),
        r is Ok ==> event_views(final(events)@).take(old(events)@.len() as int) == event_views(old(events)@)
            && broadcasts(event_views(final(events)@).skip(old(events)@.len() as int),
                certificate_round(*config, authorities@, view_texts(local_views@), block_views(old(blocks)@), slot, rounds, 0),
                authorities@, certificate_time, config.latency_min_ms, config.latency_max_ms),
        final(draws).seed() == old(draws).seed(),
        r is Ok ==> sent(old(draws).seed(), old(draws).calls(), certificate_round(*config, authorities@, view_texts(local_views@), block_views(old(blocks)@), slot, rounds, 0), authorities@, certificate_time,
            config.latency_min_ms, config.latency_max_ms, network_loss(*config))
            == (event_views(final(events)@).skip(old(events)@.len() as int), final(draws).calls()),
{
    let ghost views = view_texts(local_views@);
    let ghost bv0 = block_views(blocks@);
    let ghost ev0 = event_views(events@);
    let ghost target = certificate_round(*config, authorities@, views, bv0, slot, rounds, 0);
    let ghost mut added: Seq<BlockView> = Seq::empty();
    let ghost seed = draws.seed();
    let ghost c0 = draws.calls();
    proof {
        assert(sent(seed, c0, added, authorities@, certificate_time, config.latency_min_ms, config.latency_max_ms, network_loss(*config))
            == (Seq::<EventView>::empty(), c0));
        assert(bv0 + added =~= bv0);
        assert(added + target =~= target);
        assert(event_views(events@).take(ev0.len() as int) =~= ev0);
        assert(event_views(events@).skip(ev0.len() as int) =~= Seq::<EventView>::empty());
    }
    let mut i: usize = 0;
    while i < authorities.len()
        invariant
            i <= authorities@.len(),
            local_views@.len() == authorities@.len(),
            run_ok(*config, authorities@, blocks@, events@),
            well_shaped(block_views(blocks@)),
            issued_before(block_views(blocks@), authorities@, slot, rounds.certificate as int, i as int),
            ids_distinct(authorities@),
            round_in_wave(rounds.certificate, slot),
            rounds.certificate == rounds.support + 1,
            rounds.certificate == 3 * slot + 2,
            proposals_by_leader(block_views(blocks@), authorities@),
            authorities@.len() <= 0x1_0000_0000 ==> honest_supports_single(block_views(blocks@), named_set(config.byzantine_authorities@)),
            forall|j: int| 0 <= j < local_views@.len() ==> strictly_ascending(#[trigger] texts(local_views@[j]@)),
            views == view_texts(local_views@),
            block_views(blocks@) == bv0 + added,
            added + certificate_round(*config, authorities@, views, bv0 + added, slot, rounds, i as int) == target,
            events@.len() >= ev0.len(),
            event_views(events@).take(ev0.len() as int) == ev0,
            broadcasts(event_views(events@).skip(ev0.len() as int), added, authorities@, certificate_time,
                config.latency_min_ms, config.latency_max_ms),
            draws.seed() == seed,
            seed == old(draws).seed(),
            c0 == old(draws).calls(),
            ev0.len() == old(events)@.len(),
            sent(seed, c0, added, authorities@, certificate_time, config.latency_min_ms, config.latency_max_ms, network_loss(*config))
                == (event_views(events@).skip(ev0.len() as int), draws.calls()),
        decreases authorities@.len() - i,
    {
        let ghost old_bv = block_views(blocks@);
        let ghost old_ev = event_views(events@);
        let ghost old_calls = draws.calls();
        let ghost made_spec = certificates_made(*config, authorities@, views[i as int], old_bv, slot, rounds, i as int);
        proof {
            assert(views[i as int] == texts(local_views@[i as int]@));
        }
        if !has_index(config.crash_authorities.as_slice(), i as u32) {
            let support_parents = phase_parents(&local_views[i], blocks, slot, rounds.support);
            if support_parents.len() > 0 {
                let variants: u32 = if has_index(config.byzantine_authorities.as_slice(), i as u32) { 2 } else { 1 };
                let ghost view = texts(local_views@[i as int]@);
                let made = variants_of(&authorities[i].id, rounds.certificate, slot, variants, &support_parents);
                let ghost mv = block_views(made@);
                proof {
                    lemma_phase_ids_ascending(view, old_bv, slot, rounds.support);
                    lemma_variants_views(made@, authorities@[i as int].id@, rounds.certificate, slot, variants as nat, texts(support_parents@));
                    assert(mv == made_spec);
                    assert forall|k: int| 0 <= k < made@.len() implies from_committee(#[trigger] made@[k]@, authorities@.len() as nat) by {
                        lemma_built_from_member(made@[k]@, authorities@, config.stakes@, i as int, rounds.certificate, slot, k as u32, texts(support_parents@).to_set());
                    }
                    let ps = |k: int| texts(support_parents@).to_set();
                    assert forall|k: int, x: Seq<char>| 0 <= k < made@.len() && #[trigger] ps(k).contains(x)
                        implies phase_ids(view, old_bv, slot, (rounds.certificate - 1) as u32).contains(x) by {
                    }
                    lemma_built_issued(made@, authorities@[i as int].id@, rounds.certificate, slot, ps, view, old_bv);
                }
                match emit_all(draws, config, &made, certificate_time, authorities, events, blocks) {
                    Ok(()) => {},
                    Err(e) => return Err(e),
                }
                proof {
                    lemma_issue(old_bv, mv, authorities@, slot, rounds.certificate, i as int, view);
                    lemma_leader_extend(old_bv, mv, authorities@, slot, rounds.certificate as int, i as int);
                    if authorities@.len() <= 0x1_0000_0000 {
                        lemma_honest_extend(old_bv, mv, named_set(config.byzantine_authorities@), slot, rounds.certificate as int, authorities@[i as int].id@);
                    }
                    lemma_round_step(ev0, old_ev, event_views(events@), bv0, added, mv, authorities@, certificate_time,
                        config.latency_min_ms, config.latency_max_ms);
                    lemma_sent_step(seed, c0, old_calls, draws.calls(), ev0, old_ev, event_views(events@), added, mv,
                        authorities@, certificate_time, config.latency_min_ms, config.latency_max_ms, network_loss(*config));
                    added = added + mv;
                }
            } else {
                proof {
                    lemma_issued_widen(old_bv, authorities@, slot, rounds.certificate as int, i as int, i + 1);
                    assert(made_spec =~= Seq::<BlockView>::empty());
                }
            }
        } else {
            proof {
                lemma_issued_widen(old_bv, authorities@, slot, rounds.certificate as int, i as int, i + 1);
                assert(made_spec =~= Seq::<BlockView>::empty());
            }
        }
        proof {
            assert(certificate_round(*config, authorities@, views, old_bv, slot, rounds, i as int)
                == made_spec + certificate_round(*config, authorities@, views, old_bv + made_spec, slot, rounds, i + 1));
            assert(bv0 + added =~= old_bv + made_spec);
        }
        i = i + 1;
    }
    proof {
        lemma_issued_next_round(block_views(blocks@), authorities@, slot, rounds.certificate as int, i as int);
        assert(added =~= target);
    }
    Ok(())
}

/// The scope statement of every trace.
pub open spec fn scope_text() -> Seq<char> {
    "research/engineering Mysticeti-style digital twin; not a production Sui validator"@
}

/// The evidence labels of every trace.
pub open spec fn label_texts() -> Seq<Seq<char>> {
    seq!["SIMULATED"@, "REPLAYABLE"@, "NOT_PRODUCTION_CONSENSUS"@]
}

/// Two configurations with equal fields.
pub open spec fn same_config(a: SimulationConfig, b: SimulationConfig) -> bool {
    &&& a.seed == b.seed
    &&& a.stakes@ == b.stakes@
    &&& a.slots == b.slots
    &&& a.latency_min_ms == b.latency_min_ms
    &&& a.latency_max_ms == b.latency_max_ms
    &&& a.round_duration_ms == b.round_duration_ms
    &&& a.packet_loss == b.packet_loss
    &&& a.crash_authorities@ == b.crash_authorities@
    &&& a.byzantine_authorities@ == b.byzantine_authorities@
}

/// The blocks and events of `t` are those of the run `hist` of `config.slots` waves on its
/// committee: the blocks as recorded, and the events `u` ordered by (outcome time, block
/// id, receiver), stably, then numbered.
pub open spec fn run_of(t: Trace, config: SimulationConfig, hist: Seq<WaveState>, u: Seq<Event>) -> bool {
    &&& waves_history(config, t.committee@, hist)
    &&& hist.len() == config.slots + 1
    &&& hist.last().0 == block_views(t.blocks@)
    &&& event_views(u) == hist.last().1
    &&& t.events@.len() == u.len()
    &&& forall|i: int| 0 <= i < u.len() ==> #[trigger] t.events@[i]@ == numbered(stable_sorted(u)[i]@, i as u64)
}

/// What holds of every trace that `simulate(config)` returns: fixed schema, scope and
/// labels; the configuration (valid, with fault indices inside the committee) and its
/// seed; the committee `authority-i` with stake `stakes[i]`; the blocks and events of the
/// run of the configuration's waves, events numbered in order, each delivering a recorded
/// block to a member with a latency within the configured bounds (0 locally); canonical,
/// well-shaped blocks by members; and decisions and report that replaying the trace
/// reproduces.
pub open spec fn simulated_trace(t: Trace, config: SimulationConfig) -> bool {
    &&& t.schema_version@ == schema_text()
    &&& t.scope@ == scope_text()
    &&& texts(t.evidence_labels@) == label_texts()
    &&& same_config(t.config, config)
    &&& t.seed == config.seed
    &&& authority_views(t.committee@) == named_committee(config.stakes@)
    &&& forall|i: int| 0 <= i < t.events@.len() ==> #[trigger] t.events@[i].sequence == i
    &&& forall|i: int| 0 < i < t.events@.len() ==> t.events@[i - 1].outcome_at_ms <= #[trigger] t.events@[i].outcome_at_ms
    &&& sound_run(block_views(t.blocks@), event_views(t.events@), config.stakes@.len() as nat, config.latency_min_ms, config.latency_max_ms)
    &&& well_shaped(block_views(t.blocks@))
    &&& config.stakes@.len() <= 0x1_0000_0000 ==> honest_supports_single(block_views(t.blocks@), named_set(config.byzantine_authorities@))
    &&& exists|c: Committee, d: Dag| replayed(t, c, d)
    &&& exists|hist: Seq<WaveState>, u: Seq<Event>| #[trigger] run_of(t, config, hist, u)
    &&& config_fault(config) is None
    &&& !index_outside(config.crash_authorities@, config.stakes@.len())
    &&& !index_outside(config.byzantine_authorities@, config.stakes@.len())
}

/// Within the checked horizon, every phase time of wave `slot` plus the maximum latency
/// fits in `u64`.
pub(crate) proof fn lemma_wave_times_fit(slot: u32, slots: u32, rd: u64, hi: u64)
    requires
        slot < slots,
        (3 * (slots - 1) + 2) * rd + hi <= u64::MAX,
    ensures
        (3 * slot) * rd + 2 * rd + hi <= u64::MAX,
{
    assert((3 * slot + 2) * rd <= (3 * (slots - 1) + 2) * rd) by (nonlinear_arith)
        requires
            slot < slots,
    {
    }
    assert((3 * slot + 2) * rd == (3 * slot) * rd + 2 * rd) by (nonlinear_arith);
}

/// `views1` is `views0` with the ids delivered to each member `k` by `deadline` among
/// `events` added, each view kept strictly ascending.
pub open spec fn delivered_views(views0: Seq<Seq<Seq<char>>>, events: Seq<EventView>, deadline: u64, views1: Seq<Seq<Seq<char>>>) -> bool {
    &&& views1.len() == views0.len()
    &&& forall|k: int| 0 <= k < views1.len() ==> strictly_ascending(#[trigger] views1[k])
    &&& forall|k: int| 0 <= k < views1.len() ==> #[trigger] views1[k].to_set() == views0[k].to_set().union(delivered_to(events, deadline, k))
}

/// Wave `slot` run from blocks `bv0`, events `ev0`, local views `views0` and network
/// draws `c0`: the proposals are broadcast (`sp`) at the start of round `3 * slot`; one
/// round later the views hold what was delivered by then (`mid`) and the support blocks
/// over them are broadcast (`ss`); a round after that the views hold what was delivered
/// by then (`views1`) and the certificate blocks over them are broadcast (`sc`), leaving
/// the draws `c1`. Every broadcast draws from the generator seeded with the
/// configuration's seed.
pub open spec fn wave_trace(
    config: SimulationConfig,
    authorities: Seq<Authority>,
    slot: u32,
    bv0: Seq<BlockView>,
    ev0: Seq<EventView>,
    views0: Seq<Seq<Seq<char>>>,
    mid: Seq<Seq<Seq<char>>>,
    sp: Seq<EventView>,
    ss: Seq<EventView>,
    sc: Seq<EventView>,
    bv1: Seq<BlockView>,
    ev1: Seq<EventView>,
    views1: Seq<Seq<Seq<char>>>,
    c0: Seq<Draw>,
    c1: Seq<Draw>,
) -> bool {
    let rounds = spec_wave_rounds(slot);
    let rd = config.round_duration_ms;
    let lo = config.latency_min_ms;
    let hi = config.latency_max_ms;
    let t0 = (rounds.proposal * rd) as u64;
    let t1 = (t0 + rd) as u64;
    let t2 = (t1 + rd) as u64;
    let p = proposals_of(config, authorities, slot, rounds.proposal);
    let s = support_round(config, authorities, mid, bv0 + p, slot, rounds, 0);
    let c = certificate_round(config, authorities, views1, bv0 + p + s, slot, rounds, 0);
    &&& broadcasts(sp, p, authorities, t0, lo, hi)
    &&& delivered_views(views0, ev0 + sp, t1, mid)
    &&& broadcasts(ss, s, authorities, t1, lo, hi)
    &&& delivered_views(mid, ev0 + sp + ss, t2, views1)
    &&& broadcasts(sc, c, authorities, t2, lo, hi)
    &&& bv1 == bv0 + p + s + c
    &&& ev1 == ev0 + sp + ss + sc
    &&& sent(config.seed, c0, p, authorities, t0, lo, hi, network_loss(config)).0 == sp
    &&& sent(config.seed, sent(config.seed, c0, p, authorities, t0, lo, hi, network_loss(config)).1, s, authorities, t1, lo, hi,
        network_loss(config)).0 == ss
    &&& sent(config.seed, sent(config.seed, sent(config.seed, c0, p, authorities, t0, lo, hi, network_loss(config)).1, s, authorities,
        t1, lo, hi, network_loss(config)).1, c, authorities, t2, lo, hi, network_loss(config)) == (sc, c1)
}

/// Wave `slot` takes blocks, events, local views and network draws from `bv0`, `ev0`,
/// `views0`, `c0` to `bv1`, `ev1`, `views1`, `c1`.
pub open spec fn wave_step(
    config: SimulationConfig,
    authorities: Seq<Authority>,
    slot: u32,
    bv0: Seq<BlockView>,
    ev0: Seq<EventView>,
    views0: Seq<Seq<Seq<char>>>,
    bv1: Seq<BlockView>,
    ev1: Seq<EventView>,
    views1: Seq<Seq<Seq<char>>>,
    c0: Seq<Draw>,
    c1: Seq<Draw>,
) -> bool {
    exists|mid: Seq<Seq<Seq<char>>>, sp: Seq<EventView>, ss: Seq<EventView>, sc: Seq<EventView>|
        #[trigger] wave_trace(config, authorities, slot, bv0, ev0, views0, mid, sp, ss, sc, bv1, ev1, views1, c0, c1)
}

/// What `deliver_before` states of the local views, over their texts.
proof fn lemma_delivered_views(before: Seq<Vec<String>>, after: Seq<Vec<String>>, events: Seq<EventView>, deadline: u64)
    requires
        after.len() == before.len(),
        forall|k: int| 0 <= k < after.len() ==> strictly_ascending(#[trigger] texts(after[k]@)),
        forall|k: int| 0 <= k < after.len() ==> #[trigger] texts(after[k]@).to_set()
            == texts(before[k]@).to_set().union(delivered_to(events, deadline, k)),
    ensures
        delivered_views(view_texts(before), events, deadline, view_texts(after)),
{
    let v0 = view_texts(before);
    let v1 = view_texts(after);
    assert forall|k: int| 0 <= k < v1.len() implies strictly_ascending(#[trigger] v1[k]) by {
        assert(v1[k] == texts(after[k]@));
    }
    assert forall|k: int| 0 <= k < v1.len() implies #[trigger] v1[k].to_set() == v0[k].to_set().union(delivered_to(events, deadline, k)) by {
        assert(v1[k] == texts(after[k]@));
        assert(v0[k] == texts(before[k]@));
        assert(texts(after[k]@).to_set() == texts(before[k]@).to_set().union(delivered_to(events, deadline, k)));
    }
}

/// Runs wave `slot`: the leader proposes, then every live authority supports and
/// certifies what its local view holds by the phase deadlines.
fn run_wave(
    draws: &mut NetworkDraws,
    config: &SimulationConfig,
    slot: u32,
    authorities: &Vec<Authority>,
    local_views: &mut Vec<Vec<String>>,
    events: &mut Vec<Event>,
    blocks: &mut Vec<Block>,
) -> (r: Result<(), SimulationError>)
    requires
        authorities@.len() > 0,
        run_ok(*config, authorities@, old(blocks)@, old(events)@),
        old(local_views)@.len() == authorities@.len(),
        forall|j: int| 0 <= j < old(local_views)@.len() ==> strictly_ascending(#[trigger] texts(old(local_views)@[j]@)),
        well_shaped(block_views(old(blocks)@)),
        forall|j: int| 0 <= j < old(blocks)@.len() ==> #[trigger] old(blocks)@[j].slot < slot,
        old(draws).seed() == config.seed,
        ids_distinct(authorities@),
        proposals_by_leader(block_views(old(blocks)@), authorities@),
        authorities@.len() <= 0x1_0000_0000 ==> honest_supports_single(block_views(old(blocks)@), named_set(config.byzantine_authorities@)),
    ensures
        r is Ok ==> run_ok(*config, authorities@, final(blocks)@, final(events)@),
        r is Ok ==> well_shaped(block_views(final(blocks)@)),
        r is Ok ==> forall|j: int| 0 <= j < final(blocks)@.len() ==> #[trigger] final(blocks)@[j].slot <= slot,
        r is Ok ==> proposals_by_leader(block_views(final(blocks)@), authorities@),
        r is Ok && authorities@.len() <= 0x1_0000_0000 ==> honest_supports_single(block_views(final(blocks)@), named_set(config.byzantine_authorities@)),
        config_fault(*config) is None && slot < config.slots ==> r is Ok,
        final(local_views)@.len() == authorities@.len(),
        forall|j: int| 0 <= j < final(local_views)@.len() ==> strictly_ascending(#[trigger] texts(final(local_views)@[j]@)),
        final(draws).seed() == old(draws).seed(),
        r is Ok ==> wave_step(*config, authorities@, slot,
            block_views(old(blocks)@), event_views(old(events)@), view_texts(old(local_views)@),
            block_views(final(blocks)@), event_views(final(events)@), view_texts(final(local_views)@),
            old(draws).calls(), final(draws).calls()),
{
    let ghost bv0 = block_views(blocks@);
    let ghost ev0 = event_views(events@);
    let ghost views0 = view_texts(local_views@);
    let ghost lv0 = local_views@;
    let ghost c0 = draws.calls();
    let rounds = match wave_rounds(slot) {
        Ok(r) => r,
        Err(e) => return Err(SimulationError::Config(e.message())),
    };
    let base = rounds.proposal;
    proof {
        if config_fault(*config) is None && slot < config.slots {
            lemma_wave_times_fit(slot, config.slots, config.round_duration_ms, config.latency_max_ms);
        }
    }
    let wave_start = match (base as u64).checked_mul(config.round_duration_ms) {
        Some(t) => t,
        None => return Err(SimulationError::Config(String::from_str("wave schedule timestamp overflow"))),
    };
    let support_time = match wave_start.checked_add(config.round_duration_ms) {
        Some(t) => t,
        None => return Err(SimulationError::Config(String::from_str("support schedule timestamp overflow"))),
    };
    let certificate_time = match support_time.checked_add(config.round_duration_ms) {
        Some(t) => t,
        None => return Err(SimulationError::Config(String::from_str("certificate schedule timestamp overflow"))),
    };
    proof {
        let bv = block_views(blocks@);
        assert forall|j: int| 0 <= j < bv.len() implies {
            ||| (#[trigger] bv[j]).slot < slot
            ||| bv[j].slot == slot && bv[j].round < base as int
            ||| bv[j].slot == slot && bv[j].round == base as int && exists|a: int| 0 <= a < 0 && bv[j].author == authorities@[a].id@
        } by {
            assert(bv[j] == blocks@[j]@);
        }
    }
    match propose_phase(draws, config, slot, base, wave_start, authorities, events, blocks) {
        Ok(()) => {},
        Err(e) => return Err(e),
    }
    let ghost bv_p = block_views(blocks@);
    let ghost ev_p = event_views(events@);
    deliver_before(support_time, events.as_slice(), local_views);
    let ghost mid = view_texts(local_views@);
    let ghost lv_mid = local_views@;
    match support_phase(draws, config, slot, rounds, support_time, authorities, local_views, events, blocks) {
        Ok(()) => {},
        Err(e) => return Err(e),
    }
    let ghost bv_s = block_views(blocks@);
    let ghost ev_s = event_views(events@);
    deliver_before(certificate_time, events.as_slice(), local_views);
    let r = certify_phase(draws, config, slot, rounds, certificate_time, authorities, local_views, events, blocks);
    proof {
        if r is Ok {
            let bv = block_views(blocks@);
            assert forall|j: int| 0 <= j < blocks@.len() implies #[trigger] blocks@[j].slot <= slot by {
                assert(bv[j] == blocks@[j]@);
            }
            let ev = event_views(events@);
            let sp = ev_p.skip(ev0.len() as int);
            let ss = ev_s.skip(ev_p.len() as int);
            let sc = ev.skip(ev_s.len() as int);
            assert(ev_p =~= ev0 + sp);
            assert(ev_s =~= ev_p + ss);
            assert(ev =~= ev_s + sc);
            lemma_delivered_views(lv0, lv_mid, ev_p, support_time);
            lemma_delivered_views(lv_mid, local_views@, ev_s, certificate_time);
            assert(wave_trace(*config, authorities@, slot, bv0, ev0, views0, mid, sp, ss, sc,
                bv, ev, view_texts(local_views@), c0, draws.calls()));
        }
    }
    r
}

/// The local views of `n` members that have seen nothing.
pub open spec fn empty_views(n: nat) -> Seq<Seq<Seq<char>>> {
    Seq::new(n, |k: int| Seq::<Seq<char>>::empty())
}

/// Blocks, events, local views and network draws of a run, as they stand before a wave.
pub type WaveState = (Seq<BlockView>, Seq<EventView>, Seq<Seq<Seq<char>>>, Seq<Draw>);

/// Wave `i` takes the run from `hist[i]` to `hist[i + 1]`.
pub open spec fn wave_at(config: SimulationConfig, authorities: Seq<Authority>, hist: Seq<WaveState>, i: int) -> bool {
    wave_step(config, authorities, i as u32, hist[i].0, hist[i].1, hist[i].2, hist[i + 1].0, hist[i + 1].1, hist[i + 1].2,
        hist[i].3, hist[i + 1].3)
}

/// `hist` lists the states of a run from its start (no blocks, no events, empty views,
/// no draws), each state after the next wave.
pub open spec fn waves_history(config: SimulationConfig, authorities: Seq<Authority>, hist: Seq<WaveState>) -> bool {
    &&& hist.len() >= 1
    &&& hist[0] == (Seq::<BlockView>::empty(), Seq::<EventView>::empty(), empty_views(authorities.len()), Seq::<Draw>::empty())
    &&& forall|i: int| 0 <= i < hist.len() - 1 ==> #[trigger] wave_at(config, authorities, hist, i)
}

/// Two member lists with the same ids, in order.
pub open spec fn same_ids(a1: Seq<Authority>, a2: Seq<Authority>) -> bool {
    &&& a1.len() == a2.len()
    &&& forall|k: int| 0 <= k < a1.len() ==> #[trigger] a1[k].id@ == a2[k].id@
}

proof fn lemma_sent_from_ids(seed: u64, calls: Seq<Draw>, b: BlockView, a1: Seq<Authority>, a2: Seq<Authority>, k: int, at: u64, lo: u64, hi: u64, loss: Bernoulli)
    requires
        same_ids(a1, a2),
        0 <= k,
    ensures
        sent_from(seed, calls, b, a1, k, at, lo, hi, loss) == sent_from(seed, calls, b, a2, k, at, lo, hi, loss),
    decreases a1.len() - k,
{
    if k < a1.len() {
        assert(a1[k].id@ == a2[k].id@);
        let c1 = calls.push(Draw::Latency(lo, hi));
        lemma_sent_from_ids(seed, calls, b, a1, a2, k + 1, at, lo, hi, loss);
        lemma_sent_from_ids(seed, c1.push(Draw::Loss(loss)), b, a1, a2, k + 1, at, lo, hi, loss);
    }
}

proof fn lemma_sent_ids(seed: u64, calls: Seq<Draw>, bs: Seq<BlockView>, a1: Seq<Authority>, a2: Seq<Authority>, at: u64, lo: u64, hi: u64, loss: Bernoulli)
    requires
        same_ids(a1, a2),
    ensures
        sent(seed, calls, bs, a1, at, lo, hi, loss) == sent(seed, calls, bs, a2, at, lo, hi, loss),
    decreases bs.len(),
{
    if bs.len() > 0 {
        lemma_sent_ids(seed, calls, bs.drop_last(), a1, a2, at, lo, hi, loss);
        let first = sent(seed, calls, bs.drop_last(), a1, at, lo, hi, loss);
        lemma_sent_from_ids(seed, first.1, bs.last(), a1, a2, 0, at, lo, hi, loss);
    }
}

proof fn lemma_broadcasts_ids(ev: Seq<EventView>, bs: Seq<BlockView>, a1: Seq<Authority>, a2: Seq<Authority>, at: u64, lo: u64, hi: u64)
    requires
        same_ids(a1, a2),
        broadcasts(ev, bs, a1, at, lo, hi),
    ensures
        broadcasts(ev, bs, a2, at, lo, hi),
    decreases bs.len(),
{
    if bs.len() > 0 {
        lemma_broadcasts_ids(ev.take(ev.len() - a1.len()), bs.drop_last(), a1, a2, at, lo, hi);
        let seg = ev.skip(ev.len() - a1.len());
        assert forall|k: int| 0 <= k < seg.len() implies broadcast_event(#[trigger] seg[k], bs.last(), a2[k].id@, at, lo, hi) by {
            assert(a1[k].id@ == a2[k].id@);
        }
    }
}

proof fn lemma_support_round_ids(config: SimulationConfig, a1: Seq<Authority>, a2: Seq<Authority>, views: Seq<Seq<Seq<char>>>, known: Seq<BlockView>, slot: u32, rounds: WaveRounds, i: int)
    requires
        same_ids(a1, a2),
        0 <= i,
    ensures
        support_round(config, a1, views, known, slot, rounds, i) == support_round(config, a2, views, known, slot, rounds, i),
    decreases a1.len() - i,
{
    if i < a1.len() {
        assert(a1[i].id@ == a2[i].id@);
        let made = support_made(config, a1, views[i], known, slot, rounds, i);
        assert(made == support_made(config, a2, views[i], known, slot, rounds, i));
        lemma_support_round_ids(config, a1, a2, views, known + made, slot, rounds, i + 1);
    }
}

proof fn lemma_certificate_round_ids(config: SimulationConfig, a1: Seq<Authority>, a2: Seq<Authority>, views: Seq<Seq<Seq<char>>>, known: Seq<BlockView>, slot: u32, rounds: WaveRounds, i: int)
    requires
        same_ids(a1, a2),
        0 <= i,
    ensures
        certificate_round(config, a1, views, known, slot, rounds, i) == certificate_round(config, a2, views, known, slot, rounds, i),
    decreases a1.len() - i,
{
    if i < a1.len() {
        assert(a1[i].id@ == a2[i].id@);
        let made = certificates_made(config, a1, views[i], known, slot, rounds, i);
        assert(made == certificates_made(config, a2, views[i], known, slot, rounds, i));
        lemma_certificate_round_ids(config, a1, a2, views, known + made, slot, rounds, i + 1);
    }
}

/// A wave's run depends on the committee only through its members' ids.
proof fn lemma_wave_trace_ids(
    config: SimulationConfig,
    a1: Seq<Authority>,
    a2: Seq<Authority>,
    slot: u32,
    start: WaveState,
    w: (Seq<Seq<Seq<char>>>, Seq<EventView>, Seq<EventView>, Seq<EventView>),
    next: WaveState,
)
    requires
        same_ids(a1, a2),
        a1.len() > 0,
        wave_trace(config, a1, slot, start.0, start.1, start.2, w.0, w.1, w.2, w.3, next.0, next.1, next.2, start.3, next.3),
    ensures
        wave_trace(config, a2, slot, start.0, start.1, start.2, w.0, w.1, w.2, w.3, next.0, next.1, next.2, start.3, next.3),
{
    let rounds = spec_wave_rounds(slot);
    let rd = config.round_duration_ms;
    let lo = config.latency_min_ms;
    let hi = config.latency_max_ms;
    let loss = network_loss(config);
    let t0 = (rounds.proposal * rd) as u64;
    let t1 = (t0 + rd) as u64;
    let t2 = (t1 + rd) as u64;
    let leader = (slot as int) % (a1.len() as int);
    assert(a1[leader].id@ == a2[leader].id@);
    let p = proposals_of(config, a1, slot, rounds.proposal);
    assert(p == proposals_of(config, a2, slot, rounds.proposal));
    lemma_support_round_ids(config, a1, a2, w.0, start.0 + p, slot, rounds, 0);
    let sr = support_round(config, a1, w.0, start.0 + p, slot, rounds, 0);
    lemma_certificate_round_ids(config, a1, a2, next.2, start.0 + p + sr, slot, rounds, 0);
    let cr = certificate_round(config, a1, next.2, start.0 + p + sr, slot, rounds, 0);
    lemma_sent_ids(config.seed, start.3, p, a1, a2, t0, lo, hi, loss);
    let f1 = sent(config.seed, start.3, p, a1, t0, lo, hi, loss);
    lemma_sent_ids(config.seed, f1.1, sr, a1, a2, t1, lo, hi, loss);
    let f2 = sent(config.seed, f1.1, sr, a1, t1, lo, hi, loss);
    lemma_sent_ids(config.seed, f2.1, cr, a1, a2, t2, lo, hi, loss);
    lemma_broadcasts_ids(w.1, p, a1, a2, t0, lo, hi);
    lemma_broadcasts_ids(w.2, sr, a1, a2, t1, lo, hi);
    lemma_broadcasts_ids(w.3, cr, a1, a2, t2, lo, hi);
}

/// A run's history depends on the committee only through its members' ids.
proof fn lemma_history_ids(config: SimulationConfig, a1: Seq<Authority>, a2: Seq<Authority>, h: Seq<WaveState>)
    requires
        same_ids(a1, a2),
        a1.len() > 0,
        waves_history(config, a1, h),
    ensures
        waves_history(config, a2, h),
{
    assert forall|i: int| 0 <= i < h.len() - 1 implies #[trigger] wave_at(config, a2, h, i) by {
        assert(wave_at(config, a1, h, i));
        let (m, x, y, z) = choose|m: Seq<Seq<Seq<char>>>, a: Seq<EventView>, b: Seq<EventView>, c: Seq<EventView>|
            #[trigger] wave_trace(config, a1, i as u32, h[i].0, h[i].1, h[i].2, m, a, b, c, h[i + 1].0, h[i + 1].1, h[i + 1].2, h[i].3, h[i + 1].3);
        lemma_wave_trace_ids(config, a1, a2, i as u32, h[i], (m, x, y, z), h[i + 1]);
    }
}

/// A delivery round leaves the local views it describes determined.
proof fn lemma_views_unique(views0: Seq<Seq<Seq<char>>>, events: Seq<EventView>, deadline: u64, m1: Seq<Seq<Seq<char>>>, m2: Seq<Seq<Seq<char>>>)
    requires
        delivered_views(views0, events, deadline, m1),
        delivered_views(views0, events, deadline, m2),
    ensures
        m1 == m2,
{
    assert forall|k: int| 0 <= k < m1.len() implies m1[k] == m2[k] by {
        assert(m1[k].to_set() == m2[k].to_set());
        crate::lexical::lemma_ascending_unique(m1[k], m2[k]);
    }
    assert(m1 =~= m2);
}

/// A wave's run is determined by the state it starts from.
proof fn lemma_wave_trace_unique(
    config: SimulationConfig,
    authorities: Seq<Authority>,
    slot: u32,
    bv0: Seq<BlockView>,
    ev0: Seq<EventView>,
    views0: Seq<Seq<Seq<char>>>,
    c0: Seq<Draw>,
    w1: (Seq<Seq<Seq<char>>>, Seq<EventView>, Seq<EventView>, Seq<EventView>),
    s1: WaveState,
    w2: (Seq<Seq<Seq<char>>>, Seq<EventView>, Seq<EventView>, Seq<EventView>),
    s2: WaveState,
)
    requires
        wave_trace(config, authorities, slot, bv0, ev0, views0, w1.0, w1.1, w1.2, w1.3, s1.0, s1.1, s1.2, c0, s1.3),
        wave_trace(config, authorities, slot, bv0, ev0, views0, w2.0, w2.1, w2.2, w2.3, s2.0, s2.1, s2.2, c0, s2.3),
    ensures
        s1 == s2,
{
    let rounds = spec_wave_rounds(slot);
    let rd = config.round_duration_ms;
    let t0 = (rounds.proposal * rd) as u64;
    let t1 = (t0 + rd) as u64;
    let t2 = (t1 + rd) as u64;
    assert(w1.1 == w2.1);
    lemma_views_unique(views0, ev0 + w1.1, t1, w1.0, w2.0);
    assert(w1.2 == w2.2);
    lemma_views_unique(w1.0, ev0 + w1.1 + w1.2, t2, s1.2, s2.2);
    assert(w1.3 == w2.3);
}

/// A wave's step is determined by the state it starts from.
proof fn lemma_wave_step_unique(
    config: SimulationConfig,
    authorities: Seq<Authority>,
    slot: u32,
    start: WaveState,
    s1: WaveState,
    s2: WaveState,
)
    requires
        wave_step(config, authorities, slot, start.0, start.1, start.2, s1.0, s1.1, s1.2, start.3, s1.3),
        wave_step(config, authorities, slot, start.0, start.1, start.2, s2.0, s2.1, s2.2, start.3, s2.3),
    ensures
        s1 == s2,
{
    let (m1, a1, b1, x1) = choose|m: Seq<Seq<Seq<char>>>, a: Seq<EventView>, b: Seq<EventView>, c: Seq<EventView>|
        #[trigger] wave_trace(config, authorities, slot, start.0, start.1, start.2, m, a, b, c, s1.0, s1.1, s1.2, start.3, s1.3);
    let (m2, a2, b2, x2) = choose|m: Seq<Seq<Seq<char>>>, a: Seq<EventView>, b: Seq<EventView>, c: Seq<EventView>|
        #[trigger] wave_trace(config, authorities, slot, start.0, start.1, start.2, m, a, b, c, s2.0, s2.1, s2.2, start.3, s2.3);
    lemma_wave_trace_unique(config, authorities, slot, start.0, start.1, start.2, start.3, (m1, a1, b1, x1), s1, (m2, a2, b2, x2), s2);
}

/// Two histories of one configuration agree up to state `j`.
proof fn lemma_history_agree(config: SimulationConfig, authorities: Seq<Authority>, h1: Seq<WaveState>, h2: Seq<WaveState>, j: int)
    requires
        waves_history(config, authorities, h1),
        waves_history(config, authorities, h2),
        h1.len() == h2.len(),
        0 <= j < h1.len(),
    ensures
        h1[j] == h2[j],
    decreases j,
{
    if j > 0 {
        lemma_history_agree(config, authorities, h1, h2, j - 1);
        assert(wave_at(config, authorities, h1, j - 1));
        assert(wave_at(config, authorities, h2, j - 1));
        lemma_wave_step_unique(config, authorities, (j - 1) as u32, h1[j - 1], h1[j], h2[j]);
    }
}

/// One configuration gives one run: two histories of the same number of waves, run on
/// the same configuration and on committees with the same member ids, are equal, state by
/// state (the network draws are those of the generator seeded with the configuration's
/// seed).
pub proof fn lemma_run_determined(config: SimulationConfig, a1: Seq<Authority>, a2: Seq<Authority>, h1: Seq<WaveState>, h2: Seq<WaveState>)
    requires
        waves_history(config, a1, h1),
        waves_history(config, a2, h2),
        same_ids(a1, a2),
        h1.len() == h2.len(),
    ensures
        h1 == h2,
{
    let authorities = a1;
    if a1.len() > 0 {
        lemma_history_ids(config, a2, a1, h2);
    } else {
        assert forall|i: int| 0 <= i < h2.len() - 1 implies #[trigger] wave_at(config, a1, h2, i) by {
            assert(wave_at(config, a2, h2, i));
            assert(a1 =~= a2);
        }
        assert(a1 =~= a2);
    }
    assert forall|j: int| 0 <= j < h1.len() implies h1[j] == h2[j] by {
        lemma_history_agree(config, authorities, h1, h2, j);
    }
    assert(h1 =~= h2);
}

/// Runs the waves `0..config.slots` from empty local views, returning the blocks and
/// the events in the order in which they were scheduled.
fn run_waves(
    draws: &mut NetworkDraws,
    config: &SimulationConfig,
    authorities: &Vec<Authority>,
) -> (r: Result<(Vec<Block>, Vec<Event>), SimulationError>)
    requires
        authorities@.len() > 0,
        config.packet_loss is Some,
        config.latency_min_ms <= config.latency_max_ms,
        authority_views(authorities@) == named_committee(config.stakes@),
        committee_outcome(named_committee(config.stakes@)) is Ok,
        old(draws).seed() == config.seed,
        old(draws).calls() == Seq::<Draw>::empty(),
    ensures
        r matches Ok((b, e)) ==> run_ok(*config, authorities@, b@, e@) && well_shaped(block_views(b@))
            && (authorities@.len() <= 0x1_0000_0000 ==> honest_supports_single(block_views(b@), named_set(config.byzantine_authorities@))),
        config_fault(*config) is None ==> r is Ok,
        r matches Ok((b, e)) ==> exists|hist: Seq<WaveState>| #[trigger] waves_history(*config, authorities@, hist)
            && hist.len() == config.slots + 1 && hist.last().0 == block_views(b@) && hist.last().1 == event_views(e@),
{
    proof {
        crate::model::lemma_admission_members(named_committee(config.stakes@));
        assert forall|a: int, b: int| 0 <= a < b < authorities@.len() implies #[trigger] authorities@[a].id@ != #[trigger] authorities@[b].id@ by {
            assert(authority_views(authorities@)[a].0 == authorities@[a].id@);
            assert(authority_views(authorities@)[b].0 == authorities@[b].id@);
        }
    }
    let n = authorities.len();
    let mut blocks: Vec<Block> = Vec::new();
    let mut events: Vec<Event> = Vec::new();
    let mut local_views: Vec<Vec<String>> = Vec::new();
    let mut k: usize = 0;
    while k < n
        invariant
            k <= n,
            local_views@.len() == k,
            forall|j: int| 0 <= j < k ==> #[trigger] texts(local_views@[j]@).len() == 0,
        decreases n - k,
    {
        local_views.push(Vec::new());
        proof {
            assert(texts(local_views@[k as int]@) =~= Seq::<Seq<char>>::empty());
        }
        k = k + 1;
    }
    proof {
        assert(block_views(blocks@) =~= Seq::<BlockView>::empty());
        assert(event_views(events@) =~= Seq::<EventView>::empty());
        assert(keys_distinct(block_views(blocks@), |b: BlockView| identity_of(b)));
        assert forall|j: int| 0 <= j < local_views@.len() implies strictly_ascending(#[trigger] texts(local_views@[j]@)) by {
            assert(texts(local_views@[j]@).len() == 0);
        }
        assert forall|j: int| 0 <= j < n implies #[trigger] view_texts(local_views@)[j] == empty_views(n as nat)[j] by {
            assert(view_texts(local_views@)[j] == texts(local_views@[j]@));
            assert(texts(local_views@[j]@) =~= Seq::<Seq<char>>::empty());
        }
        assert(view_texts(local_views@) =~= empty_views(n as nat));
    }
    let ghost mut hist: Seq<WaveState> = seq![(block_views(blocks@), event_views(events@), view_texts(local_views@), draws.calls())];
    let mut slot: u32 = 0;
    while slot < config.slots
        invariant
            n == authorities@.len(),
            n > 0,
            run_ok(*config, authorities@, blocks@, events@),
            local_views@.len() == n,
            forall|j: int| 0 <= j < local_views@.len() ==> strictly_ascending(#[trigger] texts(local_views@[j]@)),
            well_shaped(block_views(blocks@)),
            forall|j: int| 0 <= j < blocks@.len() ==> #[trigger] blocks@[j].slot < slot,
            ids_distinct(authorities@),
            proposals_by_leader(block_views(blocks@), authorities@),
            authorities@.len() <= 0x1_0000_0000 ==> honest_supports_single(block_views(blocks@), named_set(config.byzantine_authorities@)),
            slot <= config.slots,
            waves_history(*config, authorities@, hist),
            hist.len() == slot + 1,
            hist.last() == (block_views(blocks@), event_views(events@), view_texts(local_views@), draws.calls()),
            draws.seed() == config.seed,
        decreases config.slots - slot,
    {
        match run_wave(draws, config, slot, authorities, &mut local_views, &mut events, &mut blocks) {
            Ok(()) => {},
            Err(e) => return Err(e),
        }
        proof {
            let before = hist;
            hist = hist.push((block_views(blocks@), event_views(events@), view_texts(local_views@), draws.calls()));
            assert forall|j: int| 0 <= j < hist.len() - 1 implies #[trigger] wave_at(*config, authorities@, hist, j) by {
                assert(hist[j] == before[j]);
                if j < slot {
                    assert(wave_at(*config, authorities@, before, j));
                    assert(hist[j + 1] == before[j + 1]);
                }
            }
        }
        slot = slot + 1;
    }
    proof {
        assert(waves_history(*config, authorities@, hist));
    }
    Ok((blocks, events))
}

/// The blocks of a run build into a DAG on the committee of the run, unless two of
/// them of different identities collide on their SHA-256 ids.
proof fn lemma_run_blocks_build(c: Committee, authorities: Seq<Authority>, stakes: Seq<u64>, blocks: Seq<Block>)
    requires
        c.valid(),
        committee_outcome(named_committee(stakes)) is Ok,
        roster_matches(c.roster(), committee_outcome(named_committee(stakes))->Ok_0.0),
        authority_views(authorities) == named_committee(stakes),
        forall|j: int| 0 <= j < block_views(blocks).len() ==> from_committee(#[trigger] block_views(blocks)[j], authorities.len() as nat),
        well_shaped(block_views(blocks)),
    ensures
        build_outcome(c.roster(), blocks) is Ok || ids_collide(block_views(blocks)),
{
    let bv = block_views(blocks);
    let v = named_committee(stakes);
    let m = committee_outcome(v)->Ok_0.0;
    let n = authorities.len() as nat;
    crate::model::lemma_admission_members(v);
    assert(v.len() == stakes.len());
    assert(authority_views(authorities).len() == authorities.len());
    if keys_distinct(bv, |b: BlockView| b.id) {
        assert forall|j: int| 0 <= j < bv.len() implies {
            &&& crate::model::stake_lookup(c.roster(), (#[trigger] bv[j]).author) is Some
            &&& id_is_canonical(bv[j])
            &&& adjacent_ascending(bv[j].parents)
            &&& round_in_wave(bv[j].round, bv[j].slot)
        } by {
            assert(from_committee(bv[j], n));
            let k = choose|k: nat| k < n && bv[j].author == #[trigger] authority_name(k);
            assert(v[k as int].0 == authority_name(k));
            assert(m.contains_key(v[k as int].0));
            let i = choose|i: int| 0 <= i < c.roster().len() && c.roster()[i].id@ == bv[j].author;
            crate::model::lemma_stake_lookup_member(c.roster(), i);
        }
        assert(self_contained(c.roster(), bv));
        lemma_build_succeeds(c.roster(), blocks);
    } else {
        let (a, b) = choose|a: int, b: int| 0 <= a < b < bv.len() && #[trigger] bv[a].id == #[trigger] bv[b].id;
        assert((|x: BlockView| identity_of(x))(bv[a]) != (|x: BlockView| identity_of(x))(bv[b]));
        assert(from_committee(bv[a], n) && from_committee(bv[b], n));
        assert(bv[a].id == bv[b].id && identity_of(bv[a]) != identity_of(bv[b]));
        assert(ids_collide(bv));
    }
}

/// Two member lists with the same id texts and stakes have the same ids, in order.
pub proof fn lemma_same_ids_of_views(a1: Seq<Authority>, a2: Seq<Authority>)
    requires
        authority_views(a1) == authority_views(a2),
    ensures
        same_ids(a1, a2),
{
    assert(a1.len() == a2.len()) by {
        assert(authority_views(a1).len() == a1.len());
        assert(authority_views(a2).len() == a2.len());
    }
    assert forall|k: int| 0 <= k < a1.len() implies #[trigger] a1[k].id@ == a2[k].id@ by {
        assert(authority_views(a1)[k] == (a1[k].id@, a1[k].stake));
        assert(authority_views(a2)[k] == (a2[k].id@, a2[k].stake));
    }
}

/// The run of `config` on the members `a` (its history `hist`) ends with `blocks`, whose
/// build on the committee `c` of the members is refused with `e`, two of them having
/// different identities but the same SHA-256 id.
pub open spec fn refused_run(config: SimulationConfig, a: Seq<Authority>, hist: Seq<WaveState>, blocks: Seq<Block>, c: Committee, e: DagFault) -> bool {
    &&& authority_views(a) == named_committee(config.stakes@)
    &&& waves_history(config, a, hist)
    &&& hist.len() == config.slots + 1
    &&& hist.last().0 == block_views(blocks)
    &&& c.valid()
    &&& forms_committee(a, c)
    &&& build_outcome(c.roster(), blocks) == Err::<DagState, DagFault>(e)
    &&& ids_collide(hist.last().0)
}

/// The run of `config` is refused with the DAG error `e`: two of its own blocks collide
/// on their ids.
pub open spec fn dag_refusal(config: SimulationConfig, e: DagFault) -> bool {
    exists|a: Seq<Authority>, hist: Seq<WaveState>, blocks: Seq<Block>, c: Committee| #[trigger] refused_run(config, a, hist, blocks, c, e)
}

/// The events of a run ordered by (outcome time, block id, receiver), numbered `0, 1, 2, ...`.
fn order_events(events: Vec<Event>, Ghost(blocks): Ghost<Seq<BlockView>>, Ghost(n): Ghost<nat>, lo: u64, hi: u64) -> (r: Vec<Event>)
    requires
        forall|i: int| 0 <= i < event_views(events@).len() ==> sound_event(#[trigger] event_views(events@)[i], blocks, n, lo, hi),
    ensures
        forall|i: int| 0 <= i < r@.len() ==> #[trigger] r@[i].sequence == i,
        forall|i: int| 0 <= i < event_views(r@).len() ==> sound_event(#[trigger] event_views(r@)[i], blocks, n, lo, hi),
        r@.len() == events@.len(),
        forall|i: int| 0 <= i < r@.len() ==> #[trigger] r@[i]@ == numbered(stable_sorted(events@)[i]@, i as u64),
        forall|i: int| 0 < i < r@.len() ==> r@[i - 1].outcome_at_ms <= #[trigger] r@[i].outcome_at_ms,
{
    let ghost unsorted = events@;
    let sorted = stable_sort(events);
    let r = renumber(&sorted);
    proof {
        lemma_stable_sorted_elements(unsorted);
        assert forall|i: int| 0 <= i < event_views(r@).len() implies sound_event(#[trigger] event_views(r@)[i], blocks, n, lo, hi) by {
            assert(unsorted.contains(sorted@[i]));
            let j = choose|j: int| 0 <= j < unsorted.len() && unsorted[j] == sorted@[i];
            assert(event_views(unsorted)[j] == unsorted[j]@);
            assert(sound_event(event_views(unsorted)[j], blocks, n, lo, hi));
            reveal(sound_event);
        }
        lemma_event_order_asymmetric();
        lemma_stable_sorted_adjacent(unsorted);
        assert forall|i: int| 0 < i < r@.len() implies r@[i - 1].outcome_at_ms <= #[trigger] r@[i].outcome_at_ms by {
            assert(r@[i]@ == numbered(sorted@[i]@, i as u64));
            assert(r@[i - 1]@ == numbered(sorted@[i - 1]@, (i - 1) as u64));
            assert(!sorted@[i].precedes(&sorted@[i - 1]));
        }
    }
    r
}

proof fn lemma_sorted_insert_event_views(s1: Seq<Event>, s2: Seq<Event>, x1: Event, x2: Event)
    requires
        event_views(s1) == event_views(s2),
        x1@ == x2@,
    ensures
        event_views(crate::sorting::sorted_insert(s1, x1)) == event_views(crate::sorting::sorted_insert(s2, x2)),
    decreases s1.len(),
{
    assert(s1.len() == s2.len()) by {
        assert(event_views(s1).len() == s1.len());
    }
    if s1.len() > 0 {
        assert(s1.last()@ == event_views(s1)[s1.len() - 1]);
        assert(s2.last()@ == event_views(s2)[s2.len() - 1]);
        assert(event_views(s1.drop_last()) =~= event_views(s1).drop_last());
        assert(event_views(s2.drop_last()) =~= event_views(s2).drop_last());
        lemma_sorted_insert_event_views(s1.drop_last(), s2.drop_last(), x1, x2);
        let r1 = crate::sorting::sorted_insert(s1, x1);
        let r2 = crate::sorting::sorted_insert(s2, x2);
        if x1.precedes(&s1.last()) {
            assert(event_views(r1) =~= event_views(crate::sorting::sorted_insert(s1.drop_last(), x1)).push(s1.last()@));
            assert(event_views(r2) =~= event_views(crate::sorting::sorted_insert(s2.drop_last(), x2)).push(s2.last()@));
        } else {
            assert(event_views(r1) =~= event_views(s1).push(x1@));
            assert(event_views(r2) =~= event_views(s2).push(x2@));
        }
    } else {
        assert(event_views(seq![x1]) =~= event_views(seq![x2]));
    }
}

/// The order of events depends on their views alone.
pub proof fn lemma_stable_sorted_event_views(s1: Seq<Event>, s2: Seq<Event>)
    requires
        event_views(s1) == event_views(s2),
    ensures
        event_views(stable_sorted(s1)) == event_views(stable_sorted(s2)),
    decreases s1.len(),
{
    assert(s1.len() == s2.len()) by {
        assert(event_views(s1).len() == s1.len());
    }
    if s1.len() > 0 {
        assert(event_views(s1.drop_last()) =~= event_views(s1).drop_last());
        assert(event_views(s2.drop_last()) =~= event_views(s2).drop_last());
        assert(s1.last()@ == event_views(s1)[s1.len() - 1]);
        assert(s2.last()@ == event_views(s2)[s2.len() - 1]);
        lemma_stable_sorted_event_views(s1.drop_last(), s2.drop_last());
        lemma_sorted_insert_event_views(stable_sorted(s1.drop_last()), stable_sorted(s2.drop_last()), s1.last(), s2.last());
    }
}

/// Two traces of one configuration carry the same blocks and events.
pub proof fn lemma_simulated_runs_agree(g1: Trace, g2: Trace, config: SimulationConfig)
    requires
        simulated_trace(g1, config),
        simulated_trace(g2, config),
    ensures
        authority_views(g1.committee@) == authority_views(g2.committee@),
        block_views(g1.blocks@) == block_views(g2.blocks@),
        event_views(g1.events@) == event_views(g2.events@),
{
    let (h1, u1) = choose|hist: Seq<WaveState>, u: Seq<Event>| #[trigger] run_of(g1, config, hist, u);
    let (h2, u2) = choose|hist: Seq<WaveState>, u: Seq<Event>| #[trigger] run_of(g2, config, hist, u);
    let a1 = g1.committee@;
    let a2 = g2.committee@;
    lemma_same_ids_of_views(a1, a2);
    lemma_run_determined(config, a1, a2, h1, h2);
    lemma_stable_sorted_event_views(u1, u2);
    lemma_stable_sorted_elements(u1);
    lemma_stable_sorted_elements(u2);
    let e1 = event_views(g1.events@);
    let e2 = event_views(g2.events@);
    assert(event_views(u1).len() == u1.len() && event_views(u2).len() == u2.len());
    assert(u1.len() == u2.len());
    assert(e1.len() == g1.events@.len() && e2.len() == g2.events@.len());
    assert(e1.len() == e2.len());
    assert forall|i: int| 0 <= i < e1.len() implies #[trigger] e1[i] == e2[i] by {
        assert(e1[i] == g1.events@[i]@);
        assert(e2[i] == g2.events@[i]@);
        assert(g1.events@[i]@ == numbered(stable_sorted(u1)[i]@, i as u64));
        assert(g2.events@[i]@ == numbered(stable_sorted(u2)[i]@, i as u64));
        assert(event_views(stable_sorted(u1))[i] == stable_sorted(u1)[i]@);
        assert(event_views(stable_sorted(u2))[i] == stable_sorted(u2)[i]@);
    }
    assert(e1 =~= e2);
}

/// With a zero-ratio loss distribution, every event of a run's history is delivered.
proof fn lemma_history_delivered(config: SimulationConfig, authorities: Seq<Authority>, hist: Seq<WaveState>, j: int)
    requires
        waves_history(config, authorities, hist),
        0 <= j < hist.len(),
        never_drops(network_loss(config)),
    ensures
        forall|i: int| 0 <= i < hist[j].1.len() ==> (#[trigger] hist[j].1[i]).status == EventStatus::Delivered,
    decreases j,
{
    if j > 0 {
        lemma_history_delivered(config, authorities, hist, j - 1);
        assert(wave_at(config, authorities, hist, j - 1));
        let h0 = hist[j - 1];
        let h1 = hist[j];
        let slot = (j - 1) as u32;
        let (m, sp, ss, sc) = choose|m: Seq<Seq<Seq<char>>>, a: Seq<EventView>, b: Seq<EventView>, c: Seq<EventView>|
            #[trigger] wave_trace(config, authorities, slot, h0.0, h0.1, h0.2, m, a, b, c, h1.0, h1.1, h1.2, h0.3, h1.3);
        let rounds = spec_wave_rounds(slot);
        let rd = config.round_duration_ms;
        let lo = config.latency_min_ms;
        let hi = config.latency_max_ms;
        let loss = network_loss(config);
        let t0 = (rounds.proposal * rd) as u64;
        let t1 = (t0 + rd) as u64;
        let t2 = (t1 + rd) as u64;
        let p = proposals_of(config, authorities, slot, rounds.proposal);
        let sr = support_round(config, authorities, m, h0.0 + p, slot, rounds, 0);
        let cr = certificate_round(config, authorities, h1.2, h0.0 + p + sr, slot, rounds, 0);
        let f1 = sent(config.seed, h0.3, p, authorities, t0, lo, hi, loss);
        let f2 = sent(config.seed, f1.1, sr, authorities, t1, lo, hi, loss);
        lemma_sent_delivered(config.seed, h0.3, p, authorities, t0, lo, hi, loss);
        lemma_sent_delivered(config.seed, f1.1, sr, authorities, t1, lo, hi, loss);
        lemma_sent_delivered(config.seed, f2.1, cr, authorities, t2, lo, hi, loss);
        let all = h0.1 + sp + ss + sc;
        assert(h1.1 == all);
        assert forall|i: int| 0 <= i < all.len() implies (#[trigger] all[i]).status == EventStatus::Delivered by {
            let n0 = h0.1.len();
            let n1 = n0 + sp.len();
            let n2 = n1 + ss.len();
            if i < n0 {
                assert(all[i] == h0.1[i]);
            } else if i < n1 {
                assert(all[i] == sp[i - n0]);
                assert(sp[i - n0] == f1.0[i - n0]);
            } else if i < n2 {
                assert(all[i] == ss[i - n1]);
                assert(ss[i - n1] == f2.0[i - n1]);
            } else {
                assert(all[i] == sc[i - n2]);
            }
        }
    }
}

/// A run whose loss distribution has a zero ratio (as the default configuration's has)
/// drops nothing: every event of the trace is a delivery.
pub proof fn lossless_runs_deliver(t: Trace, config: SimulationConfig)
    requires
        simulated_trace(t, config),
        never_drops(network_loss(config)),
    ensures
        forall|i: int| 0 <= i < t.events@.len() ==> (#[trigger] t.events@[i]).status == EventStatus::Delivered,
{
    let (hist, u) = choose|hist: Seq<WaveState>, u: Seq<Event>| #[trigger] run_of(t, config, hist, u);
    lemma_history_delivered(config, t.committee@, hist, hist.len() - 1);
    lemma_stable_sorted_elements(u);
    assert forall|i: int| 0 <= i < t.events@.len() implies (#[trigger] t.events@[i]).status == EventStatus::Delivered by {
        assert(t.events@[i]@ == numbered(stable_sorted(u)[i]@, i as u64));
        assert(u.contains(stable_sorted(u)[i]));
        let k = choose|k: int| 0 <= k < u.len() && u[k] == stable_sorted(u)[i];
        assert(event_views(u)[k] == u[k]@);
        assert(hist.last().1[k] == u[k]@);
    }
}

/// Runs the seeded, event-driven simulation of `config.slots` waves. A configuration that
/// passes its checks, with a well-formed committee and fault indices inside it, yields a
/// trace; the only other outcome is a DAG error, which comes only when two blocks of
/// the configuration's own run have different identities but the same SHA-256 id. The
/// trace holds the run of the
/// configuration's waves, drawn from the generator seeded with its seed, so one
/// configuration gives one trace (`simulation_is_deterministic`).
pub fn simulate(config: &SimulationConfig) -> (res: Result<Trace, SimulationError>)
    ensures
        config_fault(*config) matches Some(m) ==> (res matches Err(SimulationError::Config(x)) && x@ == m),
        config_fault(*config) is None && committee_outcome(named_committee(config.stakes@)) is Err
            ==> (res matches Err(SimulationError::Committee(e)) && committee_outcome(named_committee(config.stakes@)) == Err::<(Map<Seq<char>, u64>, nat), CommitteeFault>(e@)),
        config_fault(*config) is None && committee_outcome(named_committee(config.stakes@)) is Ok
            && (index_outside(config.crash_authorities@, config.stakes@.len()) || index_outside(config.byzantine_authorities@, config.stakes@.len()))
            ==> (res matches Err(SimulationError::Config(x)) && x@ == "fault authority index is outside committee"@),
        config_fault(*config) is None && committee_outcome(named_committee(config.stakes@)) is Ok
            && !index_outside(config.crash_authorities@, config.stakes@.len())
            && !index_outside(config.byzantine_authorities@, config.stakes@.len())
            ==> (res is Ok || res matches Err(SimulationError::Dag(_))),
        res matches Err(SimulationError::Dag(e)) ==> dag_refusal(*config, e@),
        res matches Ok(t) ==> config_fault(*config) is None && committee_outcome(named_committee(config.stakes@)) is Ok
            && !index_outside(config.crash_authorities@, config.stakes@.len())
            && !index_outside(config.byzantine_authorities@, config.stakes@.len())
            && simulated_trace(t, *config),
{
    match validate_config(config) {
        Ok(()) => {},
        Err(e) => return Err(e),
    }
    let authorities = committee_members(config.stakes.as_slice());
    let members = copy_authorities(authorities.as_slice());
    let committee = match Committee::new(members) {
        Ok(c) => c,
        Err(e) => return Err(SimulationError::Committee(e)),
    };
    let n = authorities.len();
    if any_outside(config.crash_authorities.as_slice(), n) || any_outside(config.byzantine_authorities.as_slice(), n) {
        return Err(SimulationError::Config(String::from_str("fault authority index is outside committee")));
    }
    let mut draws = NetworkDraws::seeded(config.seed);
    let (blocks, unordered) = match run_waves(&mut draws, config, &authorities) {
        Ok(run) => run,
        Err(e) => return Err(e),
    };
    let ghost u = unordered@;
    let events = order_events(unordered, Ghost(block_views(blocks@)), Ghost(n as nat), config.latency_min_ms, config.latency_max_ms);
    proof {
        use_type_invariant(&committee);
        lemma_run_blocks_build(committee, authorities@, config.stakes@, blocks@);
    }
    let dag = match Dag::build(&committee, blocks.as_slice()) {
        Ok(d) => d,
        Err(e) => {
            proof {
                use_type_invariant(&committee);
                let hist = choose|hist: Seq<WaveState>| #[trigger] waves_history(*config, authorities@, hist)
                    && hist.len() == config.slots + 1 && hist.last().0 == block_views(blocks@) && hist.last().1 == event_views(u);
                assert(forms_committee(authorities@, committee));
                assert(refused_run(*config, authorities@, hist, blocks@, committee, e@));
            }
            return Err(SimulationError::Dag(e));
        },
    };
    let decisions = match evaluate_all(&committee, &dag, config.slots) {
        Ok(ds) => ds,
        Err(e) => return Err(SimulationError::Config(e.message())),
    };
    let invariants = invariant_report(&committee, &dag, decisions.as_slice(), config);
    let mut evidence_labels: Vec<String> = Vec::new();
    evidence_labels.push(String::from_str("SIMULATED"));
    evidence_labels.push(String::from_str("REPLAYABLE"));
    evidence_labels.push(String::from_str("NOT_PRODUCTION_CONSENSUS"));
    let t = Trace {
        schema_version: String::from_str(TRACE_SCHEMA_VERSION),
        scope: String::from_str("research/engineering Mysticeti-style digital twin; not a production Sui validator"),
        config: config.duplicate(),
        seed: config.seed,
        committee: authorities,
        blocks,
        events,
        decisions,
        invariants,
        evidence_labels,
    };
    proof {
        use_type_invariant(&committee);
        use_type_invariant(&dag);
        assert(texts(t.evidence_labels@) =~= label_texts());
        assert(replayed(t, committee, dag));
        let hist = choose|hist: Seq<WaveState>| #[trigger] waves_history(*config, t.committee@, hist)
            && hist.len() == config.slots + 1 && hist.last().0 == block_views(t.blocks@) && hist.last().1 == event_views(u);
        assert(run_of(t, *config, hist, u));
    }
    Ok(t)
}

} // verus!
