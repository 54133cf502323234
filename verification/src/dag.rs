use vstd::prelude::*;
use crate::lexical::{texts, text_lt, str_lt, lemma_text_lt_total, lemma_text_lt_transitive, lemma_text_lt_irreflexive, lemma_text_lt_asymmetric};
use crate::model::{Authority, AuthorityId, Block, BlockId, BlockView, Committee, id_is_canonical, stake_lookup, authority_views, lemma_stake_lookup_views};
use crate::sorting::{SortKey, stable_sort, stable_sorted, keys_distinct, precedes_asymmetric, adjacent_in_order,
    lemma_stable_sorted_adjacent, lemma_stable_sorted_distinct, lemma_stable_sorted_contains, lemma_stable_sorted_elements,
    lemma_stable_sorted_multiset};
use crate::wave::{wave_rounds, wave_representable};
use crate::render::{decimal, decimal_text};

verus! {

/// Why a block cannot join the DAG.
#[derive(Clone, Debug, PartialEq, Eq)]
pub enum DagError {
    UnknownAuthor { block: BlockId, author: String },
    UnknownParent { block: BlockId, parent: BlockId },
    ParentNotEarlier { block: BlockId, parent: BlockId },
    IdentityCollision(BlockId),
    InvalidBlockId(BlockId),
    NonCanonicalParents(BlockId),
    InvalidWave { block: BlockId, round: u32, slot: u32 },
    InvalidParentPhase { block: BlockId, parent: BlockId },
}

/// `DagError` with texts in place of strings.
pub enum DagFault {
    UnknownAuthor { block: Seq<char>, author: Seq<char> },
    UnknownParent { block: Seq<char>, parent: Seq<char> },
    ParentNotEarlier { block: Seq<char>, parent: Seq<char> },
    IdentityCollision(Seq<char>),
    InvalidBlockId(Seq<char>),
    NonCanonicalParents(Seq<char>),
    InvalidWave { block: Seq<char>, round: u32, slot: u32 },
    InvalidParentPhase { block: Seq<char>, parent: Seq<char> },
}

impl View for DagError {
    type V = DagFault;

    open spec fn view(&self) -> DagFault {
        match self {
            DagError::UnknownAuthor { block, author } => DagFault::UnknownAuthor { block: block@, author: author@ },
            DagError::UnknownParent { block, parent } => DagFault::UnknownParent { block: block@, parent: parent@ },
            DagError::ParentNotEarlier { block, parent } => DagFault::ParentNotEarlier { block: block@, parent: parent@ },
            DagError::IdentityCollision(b) => DagFault::IdentityCollision(b@),
            DagError::InvalidBlockId(b) => DagFault::InvalidBlockId(b@),
            DagError::NonCanonicalParents(b) => DagFault::NonCanonicalParents(b@),
            DagError::InvalidWave { block, round, slot } => DagFault::InvalidWave { block: block@, round: *round, slot: *slot },
            DagError::InvalidParentPhase { block, parent } => DagFault::InvalidParentPhase { block: block@, parent: parent@ },
        }
    }
}

/// The message text of a DAG fault.
pub open spec fn dag_fault_text(f: DagFault) -> Seq<char> {
    match f {
        DagFault::UnknownAuthor { block, author } => "block "@ + block + " has unknown author "@ + author,
        DagFault::UnknownParent { block, parent } => "block "@ + block + " has unknown parent "@ + parent,
        DagFault::ParentNotEarlier { block, parent } => "parent "@ + parent + " is not earlier than block "@ + block,
        DagFault::IdentityCollision(b) => "duplicate author/round/slot/variant identity for block "@ + b,
        DagFault::InvalidBlockId(b) => "block "@ + b + " has a non-canonical deterministic id"@,
        DagFault::NonCanonicalParents(b) => "block "@ + b + " has non-canonical parents (must be strictly sorted and unique)"@,
        DagFault::InvalidWave { block, round, slot } => "block "@ + block + " round "@ + decimal_text(round as nat)
            + " does not match slot "@ + decimal_text(slot as nat) + " phase"@,
        DagFault::InvalidParentPhase { block, parent } => "block "@ + block + " has phase/slot-invalid parent "@ + parent,
    }
}

impl DagError {
    /// The error's message text.
    pub fn message(&self) -> (s: String)
        ensures
            s@ == dag_fault_text(self@),
    {
        match self {
            DagError::UnknownAuthor { block, author } => {
                let mut s = String::from_str("block ");
                s.append(block.as_str());
                s.append(" has unknown author ");
                s.append(author.as_str());
                s
            },
            DagError::UnknownParent { block, parent } => {
                let mut s = String::from_str("block ");
                s.append(block.as_str());
                s.append(" has unknown parent ");
                s.append(parent.as_str());
                s
            },
            DagError::ParentNotEarlier { block, parent } => {
                let mut s = String::from_str("parent ");
                s.append(parent.as_str());
                s.append(" is not earlier than block ");
                s.append(block.as_str());
                s
            },
            DagError::IdentityCollision(b) => {
                let mut s = String::from_str("duplicate author/round/slot/variant identity for block ");
                s.append(b.as_str());
                s
            },
            DagError::InvalidBlockId(b) => {
                let mut s = String::from_str("block ");
                s.append(b.as_str());
                s.append(" has a non-canonical deterministic id");
                s
            },
            DagError::NonCanonicalParents(b) => {
                let mut s = String::from_str("block ");
                s.append(b.as_str());
                s.append(" has non-canonical parents (must be strictly sorted and unique)");
                s
            },
            DagError::InvalidWave { block, round, slot } => {
                let mut s = String::from_str("block ");
                s.append(block.as_str());
                s.append(" round ");
                s.append(decimal(*round as u64).as_str());
                s.append(" does not match slot ");
                s.append(decimal(*slot as u64).as_str());
                s.append(" phase");
                s
            },
            DagError::InvalidParentPhase { block, parent } => {
                let mut s = String::from_str("block ");
                s.append(block.as_str());
                s.append(" has phase/slot-invalid parent ");
                s.append(parent.as_str());
                s
            },
        }
    }
}

/// Author, round, slot and variant: what may occur only once in a DAG.
pub open spec fn identity_of(b: BlockView) -> (Seq<char>, u32, u32, u32) {
    (b.author, b.round, b.slot, b.variant)
}

/// Two of the blocks `s` have different identities but the same id: their SHA-256 block
/// digests coincide.
pub open spec fn ids_collide(s: Seq<BlockView>) -> bool {
    exists|i: int, j: int| 0 <= i < j < s.len() && #[trigger] s[i].id == #[trigger] s[j].id && identity_of(s[i]) != identity_of(s[j])
}

/// `dag` stores, under the id of `b`, a block of another identity.
pub open spec fn id_taken_by_other(dag: DagState, b: BlockView) -> bool {
    dag.blocks.contains_key(b.id) && identity_of(dag.blocks[b.id]) != identity_of(b)
}

/// The abstract DAG: blocks by id, and the identities admitted so far.
pub struct DagState {
    pub blocks: Map<Seq<char>, BlockView>,
    pub identities: Set<(Seq<char>, u32, u32, u32)>,
}

/// The empty DAG.
pub open spec fn empty_dag() -> DagState {
    DagState { blocks: Map::empty(), identities: Set::empty() }
}

/// Consecutive parents strictly increase.
pub open spec fn adjacent_ascending(ps: Seq<Seq<char>>) -> bool {
    forall|i: int| 0 <= i < ps.len() - 1 ==> text_lt(#[trigger] ps[i], ps[i + 1])
}

/// `round` lies in the (representable) wave of `slot`.
pub open spec fn round_in_wave(round: u32, slot: u32) -> bool {
    wave_representable(slot) && 3 * slot <= round <= 3 * slot + 2
}

/// The check of one parent `p` of `b`.
pub open spec fn parent_fault(blocks: Map<Seq<char>, BlockView>, b: BlockView, p: Seq<char>) -> Option<DagFault> {
    if !blocks.contains_key(p) {
        Some(DagFault::UnknownParent { block: b.id, parent: p })
    } else if blocks[p].round >= b.round {
        Some(DagFault::ParentNotEarlier { block: b.id, parent: p })
    } else if blocks[p].slot != b.slot || blocks[p].round + 1 != b.round {
        Some(DagFault::InvalidParentPhase { block: b.id, parent: p })
    } else {
        None
    }
}

/// The first failing parent check among `ps`, in order.
pub open spec fn first_parent_fault(blocks: Map<Seq<char>, BlockView>, b: BlockView, ps: Seq<Seq<char>>) -> Option<DagFault>
    decreases ps.len(),
{
    if ps.len() == 0 {
        None
    } else {
        match first_parent_fault(blocks, b, ps.drop_last()) {
            Some(f) => Some(f),
            None => parent_fault(blocks, b, ps.last()),
        }
    }
}

/// Why `b` is refused by `dag` under a committee with members `roster`, checks in order.
pub open spec fn insert_fault(roster: Seq<Authority>, dag: DagState, b: BlockView) -> Option<DagFault> {
    if stake_lookup(roster, b.author) is None {
        Some(DagFault::UnknownAuthor { block: b.id, author: b.author })
    } else if !id_is_canonical(b) {
        Some(DagFault::InvalidBlockId(b.id))
    } else if !adjacent_ascending(b.parents) {
        Some(DagFault::NonCanonicalParents(b.id))
    } else if !round_in_wave(b.round, b.slot) {
        Some(DagFault::InvalidWave { block: b.id, round: b.round, slot: b.slot })
    } else if dag.identities.contains(identity_of(b)) {
        Some(DagFault::IdentityCollision(b.id))
    } else {
        first_parent_fault(dag.blocks, b, b.parents)
    }
}

/// `dag` after admitting `b` (a block with an id already present replaces it).
pub open spec fn with_block(dag: DagState, b: BlockView) -> DagState {
    DagState { blocks: dag.blocks.insert(b.id, b), identities: dag.identities.insert(identity_of(b)) }
}

/// Blocks admitted one after another from `dag`; the first refusal is reported.
pub open spec fn insert_all(roster: Seq<Authority>, dag: DagState, bs: Seq<BlockView>) -> Result<DagState, DagFault>
    decreases bs.len(),
{
    if bs.len() == 0 {
        Ok(dag)
    } else {
        match insert_all(roster, dag, bs.drop_last()) {
            Err(f) => Err(f),
            Ok(d) => match insert_fault(roster, d, bs.last()) {
                Some(f) => Err(f),
                None => Ok(with_block(d, bs.last())),
            },
        }
    }
}

/// Views of a sequence of blocks.
pub open spec fn block_views(bs: Seq<Block>) -> Seq<BlockView> {
    bs.map_values(|b: Block| b@)
}

/// Ids of the listing are strictly ascending.
pub open spec fn ids_ascending_blocks(s: Seq<BlockView>) -> bool {
    forall|i: int, j: int| 0 <= i < j < s.len() ==> text_lt(#[trigger] s[i].id, #[trigger] s[j].id)
}

/// The map from id to block of a listing.
pub open spec fn listing_map(s: Seq<BlockView>) -> Map<Seq<char>, BlockView>
    decreases s.len(),
{
    if s.len() == 0 {
        Map::empty()
    } else {
        listing_map(s.drop_last()).insert(s.last().id, s.last())
    }
}

/// In a listing with distinct ids, the map holds exactly the listed blocks under their ids.
pub proof fn lemma_listing_map(s: Seq<BlockView>)
    requires
        ids_ascending_blocks(s),
    ensures
        forall|i: int| 0 <= i < s.len() ==> #[trigger] listing_map(s).contains_key(s[i].id) && listing_map(s)[s[i].id] == s[i],
        forall|id: Seq<char>| #[trigger] listing_map(s).contains_key(id) ==> exists|i: int| 0 <= i < s.len() && s[i].id == id,
    decreases s.len(),
{
    if s.len() > 0 {
        let p = s.drop_last();
        assert(ids_ascending_blocks(p)) by {
            assert forall|i: int, j: int| 0 <= i < j < p.len() implies text_lt(#[trigger] p[i].id, #[trigger] p[j].id) by {
                assert(s[i] == p[i] && s[j] == p[j]);
            }
        }
        lemma_listing_map(p);
        assert forall|i: int| 0 <= i < s.len() implies #[trigger] listing_map(s).contains_key(s[i].id) && listing_map(s)[s[i].id] == s[i] by {
            let last = s.last();
            assert(listing_map(s) == listing_map(p).insert(last.id, last));
            if i < s.len() - 1 {
                assert(p[i] == s[i]);
                assert(text_lt(s[i].id, s[s.len() - 1].id));
                lemma_text_lt_irreflexive(s[i].id);
                assert(s[i].id != last.id);
                assert(listing_map(p).contains_key(p[i].id));
            } else {
                assert(s[i] == last);
            }
        }
        assert forall|id: Seq<char>| #[trigger] listing_map(s).contains_key(id) implies exists|i: int| 0 <= i < s.len() && s[i].id == id by {
            if id != s.last().id {
                assert(listing_map(p).contains_key(id));
                let i = choose|i: int| 0 <= i < p.len() && p[i].id == id;
                assert(s[i] == p[i]);
            } else {
                assert(s[s.len() - 1].id == id);
            }
        }
    }
}

/// Two listings with distinct ids and the same blocks per id have the same map.
proof fn lemma_listing_map_ext(s: Seq<BlockView>, m: Map<Seq<char>, BlockView>)
    requires
        ids_ascending_blocks(s),
        forall|i: int| 0 <= i < s.len() ==> #[trigger] m.contains_key(s[i].id) && m[s[i].id] == s[i],
        forall|id: Seq<char>| #[trigger] m.contains_key(id) ==> exists|i: int| 0 <= i < s.len() && s[i].id == id,
    ensures
        listing_map(s) == m,
{
    lemma_listing_map(s);
    assert forall|id: Seq<char>| #[trigger] listing_map(s).contains_key(id) <==> m.contains_key(id) by {
        if m.contains_key(id) {
            let i = choose|i: int| 0 <= i < s.len() && s[i].id == id;
        }
        if listing_map(s).contains_key(id) {
            let i = choose|i: int| 0 <= i < s.len() && s[i].id == id;
        }
    }
    assert forall|id: Seq<char>| #[trigger] listing_map(s).contains_key(id) implies listing_map(s)[id] == m[id] by {
        let i = choose|i: int| 0 <= i < s.len() && s[i].id == id;
    }
    assert(listing_map(s) =~= m);
}

/// A validated block DAG. Blocks are kept in ascending id order.
#[derive(Debug)]
pub struct Dag {
    blocks: Vec<Block>,
    identities: Vec<(AuthorityId, u32, u32, u32)>,
}

/// Identity texts of the stored identity tuples.
pub open spec fn identity_texts(ids: Seq<(AuthorityId, u32, u32, u32)>) -> Set<(Seq<char>, u32, u32, u32)> {
    ids.map_values(|t: (AuthorityId, u32, u32, u32)| (t.0@, t.1, t.2, t.3)).to_set()
}

/// What every block of a listing satisfies once admitted: canonical id, canonical
/// parents, a round inside its wave, and parents present in the listing.
pub open spec fn blocks_admissible(s: Seq<BlockView>) -> bool {
    forall|i: int| 0 <= i < s.len() ==> {
        &&& id_is_canonical(#[trigger] s[i])
        &&& adjacent_ascending(s[i].parents)
        &&& round_in_wave(s[i].round, s[i].slot)
        &&& forall|k: int| 0 <= k < s[i].parents.len() ==> #[trigger] listing_map(s).contains_key(s[i].parents[k])
    }
}

impl View for Dag {
    type V = DagState;

    closed spec fn view(&self) -> DagState {
        DagState { blocks: listing_map(block_views(self.blocks@)), identities: identity_texts(self.identities@) }
    }
}

impl Dag {
    /// Ids ascending; every stored block admissible.
    #[verifier::type_invariant]
    pub closed spec fn valid(&self) -> bool {
        &&& ids_ascending_blocks(block_views(self.blocks@))
        &&& blocks_admissible(block_views(self.blocks@))
    }

    /// The blocks in ascending id order.
    pub closed spec fn listing(&self) -> Seq<BlockView> {
        block_views(self.blocks@)
    }

    /// The listing's ids ascend, it holds exactly the blocks of the view, and every block is admissible.
    pub proof fn lemma_listing(&self)
        requires
            self.valid(),
        ensures
            ids_ascending_blocks(self.listing()),
            listing_map(self.listing()) == self@.blocks,
            forall|i: int| 0 <= i < self.listing().len() ==> #[trigger] self@.blocks.contains_key(self.listing()[i].id) && self@.blocks[self.listing()[i].id] == self.listing()[i],
            forall|id: Seq<char>| #[trigger] self@.blocks.contains_key(id) ==> exists|i: int| 0 <= i < self.listing().len() && self.listing()[i].id == id,
            forall|id: Seq<char>| #[trigger] self@.blocks.contains_key(id) ==> self@.blocks[id].id == id,
    {
        lemma_listing_map(self.listing());
        assert forall|id: Seq<char>| #[trigger] self@.blocks.contains_key(id) implies self@.blocks[id].id == id by {
            let i = choose|i: int| 0 <= i < self.listing().len() && self.listing()[i].id == id;
        }
    }

    /// Every stored block sits under its own id.
    pub proof fn lemma_view_ids(&self)
        requires
            self.valid(),
        ensures
            forall|id: Seq<char>| #[trigger] self@.blocks.contains_key(id) ==> self@.blocks[id].id == id,
    {
        self.lemma_listing();
    }

    /// Every listed block is admissible.
    pub proof fn lemma_admissible(&self)
        requires
            self.valid(),
        ensures
            blocks_admissible(self.listing()),
    {
    }
}

proof fn lemma_first_parent_fault_prefix(m: Map<Seq<char>, BlockView>, b: BlockView, ps: Seq<Seq<char>>, k: int)
    requires
        0 <= k <= ps.len(),
        first_parent_fault(m, b, ps.take(k)) is Some,
    ensures
        first_parent_fault(m, b, ps) == first_parent_fault(m, b, ps.take(k)),
    decreases ps.len(),
{
    if k < ps.len() {
        assert(ps.drop_last().take(k) =~= ps.take(k));
        lemma_first_parent_fault_prefix(m, b, ps.drop_last(), k);
    } else {
        assert(ps.take(k) =~= ps);
    }
}

proof fn lemma_first_parent_fault_none(m: Map<Seq<char>, BlockView>, b: BlockView, ps: Seq<Seq<char>>)
    requires
        first_parent_fault(m, b, ps) is None,
    ensures
        forall|k: int| 0 <= k < ps.len() ==> #[trigger] parent_fault(m, b, ps[k]) is None,
    decreases ps.len(),
{
    if ps.len() > 0 {
        lemma_first_parent_fault_none(m, b, ps.drop_last());
        assert forall|k: int| 0 <= k < ps.len() implies #[trigger] parent_fault(m, b, ps[k]) is None by {
            if k < ps.len() - 1 {
                assert(ps.drop_last()[k] == ps[k]);
            }
        }
    }
}

/// Position of the block with id `id` in an ascending listing, or where it would go.
fn locate_block(blocks: &Vec<Block>, id: &str) -> (r: (bool, usize))
    requires
        ids_ascending_blocks(block_views(blocks@)),
    ensures
        r.1 <= blocks@.len(),
        r.0 ==> r.1 < blocks@.len() && blocks@[r.1 as int].id@ == id@,
        !r.0 ==> forall|k: int| 0 <= k < blocks@.len() ==> #[trigger] blocks@[k].id@ != id@,
        !r.0 ==> forall|k: int| 0 <= k < r.1 ==> text_lt(#[trigger] blocks@[k].id@, id@),
        !r.0 ==> forall|k: int| r.1 <= k < blocks@.len() ==> text_lt(id@, #[trigger] blocks@[k].id@),
{
    let ghost bv = block_views(blocks@);
    let mut i: usize = 0;
    while i < blocks.len()
        invariant
            bv == block_views(blocks@),
            ids_ascending_blocks(bv),
            i <= blocks@.len(),
            forall|k: int| 0 <= k < i ==> text_lt(#[trigger] blocks@[k].id@, id@),
        decreases blocks@.len() - i,
    {
        let cur = blocks[i].id.as_str();
        let before = str_lt(cur, id);
        let after = str_lt(id, cur);
        if !before && !after {
            proof {
                if cur@ != id@ {
                    lemma_text_lt_total(cur@, id@);
                }
            }
            return (true, i);
        }
        if after {
            proof {
                assert forall|k: int| i <= k < blocks@.len() implies text_lt(id@, #[trigger] blocks@[k].id@) by {
                    if k > i {
                        assert(bv[i as int].id == blocks@[i as int].id@);
                        assert(bv[k].id == blocks@[k].id@);
                        lemma_text_lt_transitive(id@, blocks@[i as int].id@, blocks@[k].id@);
                    }
                }
                assert forall|k: int| 0 <= k < blocks@.len() implies #[trigger] blocks@[k].id@ != id@ by {
                    lemma_text_lt_irreflexive(id@);
                }
            }
            return (false, i);
        }
        i = i + 1;
    }
    proof {
        assert forall|k: int| 0 <= k < blocks@.len() implies #[trigger] blocks@[k].id@ != id@ by {
            lemma_text_lt_irreflexive(id@);
        }
    }
    (false, i)
}

/// Whether consecutive parents strictly increase (`windows(2).all(|w| w[0] < w[1])`).
fn parents_adjacent_ascending(ps: &[String]) -> (r: bool)
    ensures
        r == adjacent_ascending(texts(ps@)),
{
    let mut i: usize = 1;
    while i < ps.len()
        invariant
            1 <= i,
            i <= ps@.len() || ps@.len() == 0,
            forall|k: int| 0 <= k < i - 1 && k < ps@.len() - 1 ==> text_lt(#[trigger] texts(ps@)[k], texts(ps@)[k + 1]),
        decreases ps@.len() - i,
    {
        if !str_lt(ps[i - 1].as_str(), ps[i].as_str()) {
            proof {
                assert(!text_lt(texts(ps@)[i - 1], texts(ps@)[i - 1 + 1]));
            }
            return false;
        }
        i = i + 1;
    }
    true
}

impl Dag {
    /// Whether an identity equal to that of `b` was admitted before.
    fn has_identity(&self, b: &Block) -> (r: bool)
        ensures
            r == self@.identities.contains(identity_of(b@)),
    {
        let ghost target = identity_of(b@);
        let ghost tv = self.identities@.map_values(|t: (AuthorityId, u32, u32, u32)| (t.0@, t.1, t.2, t.3));
        let mut i: usize = 0;
        while i < self.identities.len()
            invariant
                i <= self.identities@.len(),
                tv == self.identities@.map_values(|t: (AuthorityId, u32, u32, u32)| (t.0@, t.1, t.2, t.3)),
                target == identity_of(b@),
                forall|k: int| 0 <= k < i ==> #[trigger] tv[k] != target,
            decreases self.identities@.len() - i,
        {
            let t = &self.identities[i];
            if t.0.0 == b.author.0 && t.1 == b.round && t.2 == b.slot && t.3 == b.variant {
                proof {
                    assert(tv[i as int] == target);
                }
                return true;
            }
            proof {
                assert(tv[i as int] != target);
            }
            i = i + 1;
        }
        proof {
            if tv.to_set().contains(target) {
                let k = choose|k: int| 0 <= k < tv.len() && tv[k] == target;
            }
        }
        false
    }

    /// The first failing parent check of `b`, if any.
    fn check_parents(&self, b: &Block) -> (r: Option<DagError>)
        ensures
            r is None <==> first_parent_fault(self@.blocks, b@, b@.parents) is None,
            r matches Some(e) ==> Some(e@) == first_parent_fault(self@.blocks, b@, b@.parents),
    {
        proof {
            use_type_invariant(self);
            self.lemma_listing();
        }
        let ghost m = self@.blocks;
        let ghost ps = b@.parents;
        let mut i: usize = 0;
        proof {
            assert(ps.take(0) =~= Seq::<Seq<char>>::empty());
        }
        while i < b.parents.len()
            invariant
                self.valid(),
                m == self@.blocks,
                ps == b@.parents,
                ps.len() == b.parents@.len(),
                i <= ps.len(),
                ids_ascending_blocks(self.listing()),
                forall|k: int| 0 <= k < self.listing().len() ==> #[trigger] m.contains_key(self.listing()[k].id) && m[self.listing()[k].id] == self.listing()[k],
                forall|id: Seq<char>| #[trigger] m.contains_key(id) ==> exists|k: int| 0 <= k < self.listing().len() && self.listing()[k].id == id,
                first_parent_fault(m, b@, ps.take(i as int)) is None,
            decreases ps.len() - i,
        {
            let pid = &b.parents[i];
            proof {
                assert(ps.take(i as int + 1).drop_last() =~= ps.take(i as int));
                assert(ps.take(i as int + 1).last() == pid@);
            }
            let (found, at) = locate_block(&self.blocks, pid.as_str());
            if !found {
                proof {
                    if m.contains_key(pid@) {
                        let k = choose|k: int| 0 <= k < self.listing().len() && self.listing()[k].id == pid@;
                        assert(self.blocks@[k].id@ == self.listing()[k].id);
                    }
                    lemma_first_parent_fault_prefix(m, b@, ps, i as int + 1);
                }
                return Some(DagError::UnknownParent { block: b.id.clone(), parent: pid.clone() });
            }
            let parent = &self.blocks[at];
            proof {
                assert(self.listing()[at as int] == parent@);
                assert(m.contains_key(pid@) && m[pid@] == parent@);
            }
            if parent.round >= b.round {
                proof {
                    lemma_first_parent_fault_prefix(m, b@, ps, i as int + 1);
                }
                return Some(DagError::ParentNotEarlier { block: b.id.clone(), parent: pid.clone() });
            }
            let next_ok = match parent.round.checked_add(1) {
                Some(n) => n == b.round,
                None => false,
            };
            if parent.slot != b.slot || !next_ok {
                proof {
                    lemma_first_parent_fault_prefix(m, b@, ps, i as int + 1);
                }
                return Some(DagError::InvalidParentPhase { block: b.id.clone(), parent: pid.clone() });
            }
            i = i + 1;
        }
        proof {
            assert(ps.take(ps.len() as int) =~= ps);
        }
        None
    }
}

/// The stored blocks after placing `b` keep ascending ids and every block admissible.
proof fn lemma_store_keeps_valid(old_s: Seq<BlockView>, new_s: Seq<BlockView>, b: BlockView)
    requires
        ids_ascending_blocks(old_s),
        blocks_admissible(old_s),
        ids_ascending_blocks(new_s),
        listing_map(new_s) == listing_map(old_s).insert(b.id, b),
        forall|i: int| 0 <= i < new_s.len() ==> #[trigger] new_s[i] == b || exists|j: int| 0 <= j < old_s.len() && old_s[j] == new_s[i],
        id_is_canonical(b),
        adjacent_ascending(b.parents),
        round_in_wave(b.round, b.slot),
        forall|k: int| 0 <= k < b.parents.len() ==> #[trigger] listing_map(old_s).contains_key(b.parents[k]),
    ensures
        blocks_admissible(new_s),
{
    let om = listing_map(old_s);
    let nm = listing_map(new_s);
    assert forall|i: int| 0 <= i < new_s.len() implies {
        &&& id_is_canonical(#[trigger] new_s[i])
        &&& adjacent_ascending(new_s[i].parents)
        &&& round_in_wave(new_s[i].round, new_s[i].slot)
        &&& forall|k: int| 0 <= k < new_s[i].parents.len() ==> #[trigger] nm.contains_key(new_s[i].parents[k])
    } by {
        if new_s[i] != b {
            let j = choose|j: int| 0 <= j < old_s.len() && old_s[j] == new_s[i];
            assert(id_is_canonical(old_s[j]));
            assert forall|k: int| 0 <= k < new_s[i].parents.len() implies #[trigger] nm.contains_key(new_s[i].parents[k]) by {
                assert(om.contains_key(old_s[j].parents[k]));
            }
        } else {
            assert forall|k: int| 0 <= k < new_s[i].parents.len() implies #[trigger] nm.contains_key(new_s[i].parents[k]) by {
                assert(om.contains_key(b.parents[k]));
            }
        }
    }
}

/// What `locate_block` reported about `b`'s id, and `blocks` after placing `b` there.
pub open spec fn placed(old_blocks: Seq<Block>, blocks: Seq<Block>, b: Block, found: bool, at: int) -> bool {
    &&& ids_ascending_blocks(block_views(old_blocks))
    &&& 0 <= at <= old_blocks.len()
    &&& found ==> at < old_blocks.len() && old_blocks[at].id@ == b.id@
    &&& !found ==> forall|k: int| 0 <= k < at ==> text_lt(#[trigger] old_blocks[k].id@, b.id@)
    &&& !found ==> forall|k: int| at <= k < old_blocks.len() ==> text_lt(b.id@, #[trigger] old_blocks[k].id@)
    &&& !found ==> forall|k: int| 0 <= k < old_blocks.len() ==> #[trigger] old_blocks[k].id@ != b.id@
    &&& found ==> blocks == old_blocks.update(at, b)
    &&& !found ==> blocks == old_blocks.insert(at, b)
}

proof fn lemma_place_views(old_blocks: Seq<Block>, blocks: Seq<Block>, b: Block, found: bool, at: int)
    requires
        placed(old_blocks, blocks, b, found, at),
    ensures
        found ==> block_views(blocks) == block_views(old_blocks).update(at, b@),
        !found ==> block_views(blocks) == block_views(old_blocks).insert(at, b@),
        forall|k: int| 0 <= k < old_blocks.len() ==> #[trigger] block_views(old_blocks)[k].id == old_blocks[k].id@,
{
    if found {
        assert(block_views(blocks) =~= block_views(old_blocks).update(at, b@));
    } else {
        assert(block_views(blocks) =~= block_views(old_blocks).insert(at, b@));
    }
}

proof fn lemma_place_ascending(old_blocks: Seq<Block>, blocks: Seq<Block>, b: Block, found: bool, at: int)
    requires
        placed(old_blocks, blocks, b, found, at),
    ensures
        ids_ascending_blocks(block_views(blocks)),
{
    lemma_place_views(old_blocks, blocks, b, found, at);
    let old_s = block_views(old_blocks);
    let new_s = block_views(blocks);
    let bv = b@;
    assert forall|p: int, q: int| 0 <= p < q < new_s.len() implies text_lt(#[trigger] new_s[p].id, #[trigger] new_s[q].id) by {
        if found {
            assert(old_s[at].id == bv.id);
            assert(text_lt(old_s[p].id, old_s[q].id));
        } else if q < at {
            assert(text_lt(old_s[p].id, old_s[q].id));
        } else if p < at && q == at {
            assert(text_lt(old_blocks[p].id@, bv.id));
        } else if p < at {
            assert(new_s[q] == old_s[q - 1]);
            assert(text_lt(old_s[p].id, old_s[q - 1].id));
        } else if p == at {
            assert(new_s[q] == old_s[q - 1]);
            assert(text_lt(bv.id, old_blocks[q - 1].id@));
        } else {
            assert(new_s[p] == old_s[p - 1]);
            assert(new_s[q] == old_s[q - 1]);
            assert(text_lt(old_s[p - 1].id, old_s[q - 1].id));
        }
    }
}

proof fn lemma_listing_entry(s: Seq<BlockView>, j: int)
    requires
        ids_ascending_blocks(s),
        0 <= j < s.len(),
    ensures
        listing_map(s).contains_key(s[j].id),
        listing_map(s)[s[j].id] == s[j],
{
    lemma_listing_map(s);
    assert(listing_map(s).contains_key(s[j].id) && listing_map(s)[s[j].id] == s[j]);
}

proof fn lemma_place_entry(old_blocks: Seq<Block>, blocks: Seq<Block>, b: Block, found: bool, at: int, i: int)
    requires
        placed(old_blocks, blocks, b, found, at),
        0 <= i < blocks.len(),
    ensures
        listing_map(block_views(old_blocks)).insert(b@.id, b@).contains_key(block_views(blocks)[i].id),
        listing_map(block_views(old_blocks)).insert(b@.id, b@)[block_views(blocks)[i].id] == block_views(blocks)[i],
{
    lemma_place_views(old_blocks, blocks, b, found, at);
    let old_s = block_views(old_blocks);
    let new_s = block_views(blocks);
    let bv = b@;
    if i == at {
        assert(new_s[i] == bv);
    } else {
        let j: int;
        if found || i < at {
            j = i;
        } else {
            j = i - 1;
        }
        assert(0 <= j < old_s.len());
        assert(old_s[j] == new_s[i]);
        lemma_listing_entry(old_s, j);
        if found {
            if j < at {
                assert(text_lt(old_s[j].id, old_s[at].id));
            } else {
                assert(text_lt(old_s[at].id, old_s[j].id));
            }
            lemma_text_lt_irreflexive(bv.id);
        } else {
            assert(old_blocks[j].id@ != bv.id);
        }
        assert(old_s[j].id != bv.id);
    }
}

#[verifier::spinoff_prover]
#[verifier::rlimit(30)]
proof fn lemma_place_map(old_blocks: Seq<Block>, blocks: Seq<Block>, b: Block, found: bool, at: int)
    requires
        placed(old_blocks, blocks, b, found, at),
    ensures
        listing_map(block_views(blocks)) == listing_map(block_views(old_blocks)).insert(b@.id, b@),
        forall|i: int| 0 <= i < blocks.len() ==> #[trigger] block_views(blocks)[i] == b@
            || exists|j: int| 0 <= j < old_blocks.len() && block_views(old_blocks)[j] == block_views(blocks)[i],
{
    lemma_place_views(old_blocks, blocks, b, found, at);
    lemma_place_ascending(old_blocks, blocks, b, found, at);
    let old_s = block_views(old_blocks);
    let new_s = block_views(blocks);
    let bv = b@;
    let om = listing_map(old_s);
    lemma_listing_map(old_s);
    let m2 = om.insert(bv.id, bv);
    assert forall|i: int| 0 <= i < new_s.len() implies #[trigger] new_s[i] == bv || exists|j: int| 0 <= j < old_s.len() && old_s[j] == new_s[i] by {
        if new_s[i] != bv {
            if found || i < at {
                assert(old_s[i] == new_s[i]);
            } else {
                assert(old_s[i - 1] == new_s[i]);
            }
        }
    }
    assert forall|i: int| 0 <= i < new_s.len() implies #[trigger] m2.contains_key(new_s[i].id) && m2[new_s[i].id] == new_s[i] by {
        lemma_place_entry(old_blocks, blocks, b, found, at, i);
    }
    assert forall|id: Seq<char>| #[trigger] m2.contains_key(id) implies exists|i: int| 0 <= i < new_s.len() && new_s[i].id == id by {
        if id == bv.id {
            assert(new_s[at].id == id);
        } else {
            assert(om.contains_key(id));
            let j = choose|j: int| 0 <= j < old_s.len() && old_s[j].id == id;
            if found || j < at {
                assert(new_s[j] == old_s[j]);
            } else {
                assert(new_s[j + 1] == old_s[j]);
            }
        }
    }
    lemma_listing_map_ext(new_s, m2);
}

impl Dag {
    /// Places `b` under its id and records its identity.
    fn store(&mut self, b: Block)
        requires
            id_is_canonical(b@),
            adjacent_ascending(b@.parents),
            round_in_wave(b@.round, b@.slot),
            forall|k: int| 0 <= k < b@.parents.len() ==> #[trigger] old(self)@.blocks.contains_key(b@.parents[k]),
        ensures
            final(self)@ == with_block(old(self)@, b@),
    {
        proof {
            use_type_invariant(&*self);
            self.lemma_listing();
        }
        let ghost old_s = self.listing();
        let ghost old_blocks = self.blocks@;
        let ghost old_ids = self.identities@;
        let ghost om = self@.blocks;
        let ghost bv = b@;
        let ghost b_copy_ghost = b;
        let (found, at) = locate_block(&self.blocks, b.id.as_str());
        let identity = (b.author.duplicate(), b.round, b.slot, b.variant);
        let mut blocks: Vec<Block> = Vec::new();
        std::mem::swap(&mut blocks, &mut self.blocks);
        let mut identities: Vec<(AuthorityId, u32, u32, u32)> = Vec::new();
        std::mem::swap(&mut identities, &mut self.identities);
        identities.push(identity);
        if found {
            blocks.set(at, b);
        } else {
            blocks.insert(at, b);
        }
        proof {
            assert(placed(old_blocks, blocks@, b_copy_ghost, found, at as int));
            lemma_place_ascending(old_blocks, blocks@, b_copy_ghost, found, at as int);
            lemma_place_map(old_blocks, blocks@, b_copy_ghost, found, at as int);
            lemma_store_keeps_valid(old_s, block_views(blocks@), bv);
            let f = |t: (AuthorityId, u32, u32, u32)| (t.0@, t.1, t.2, t.3);
            assert(identities@.map_values(f) =~= old_ids.map_values(f).push(identity_of(bv)));
            old_ids.map_values(f).lemma_push_to_set_commute(identity_of(bv));
        }
        self.blocks = blocks;
        self.identities = identities;
    }
}

impl Dag {
    /// Validates `block` against the committee and the DAG and admits it, or reports the
    /// first failing check and leaves the DAG unchanged.
    pub fn insert(&mut self, committee: &Committee, block: Block) -> (res: Result<(), DagError>)
        ensures
            res is Err <==> insert_fault(committee.roster(), old(self)@, block@) is Some,
            res matches Err(e) ==> Some(e@) == insert_fault(committee.roster(), old(self)@, block@),
            res is Err ==> *final(self) == *old(self),
            res is Ok ==> final(self)@ == with_block(old(self)@, block@),
    {
        if committee.stake(&block.author).is_none() {
            return Err(DagError::UnknownAuthor { block: block.id, author: block.author.0 });
        }
        if !block.has_valid_id() {
            return Err(DagError::InvalidBlockId(block.id));
        }
        if !parents_adjacent_ascending(block.parents.as_slice()) {
            return Err(DagError::NonCanonicalParents(block.id));
        }
        let in_wave = match wave_rounds(block.slot) {
            Ok(rounds) => rounds.proposal <= block.round && block.round <= rounds.certificate,
            Err(_) => false,
        };
        if !in_wave {
            return Err(DagError::InvalidWave { block: block.id, round: block.round, slot: block.slot });
        }
        if self.has_identity(&block) {
            return Err(DagError::IdentityCollision(block.id));
        }
        match self.check_parents(&block) {
            Some(e) => return Err(e),
            None => {},
        }
        proof {
            lemma_first_parent_fault_none(self@.blocks, block@, block@.parents);
            assert forall|k: int| 0 <= k < block@.parents.len() implies #[trigger] self@.blocks.contains_key(block@.parents[k]) by {
                assert(parent_fault(self@.blocks, block@, block@.parents[k]) is None);
            }
        }
        self.store(block);
        Ok(())
    }

    /// The block with id `id`, if present.
    pub fn get(&self, id: &BlockId) -> (r: Option<&Block>)
        ensures
            r is Some <==> self@.blocks.contains_key(id@),
            r matches Some(b) ==> b@ == self@.blocks[id@],
    {
        proof {
            use_type_invariant(self);
            self.lemma_listing();
        }
        let (found, at) = locate_block(&self.blocks, id.as_str());
        if found {
            proof {
                assert(self.listing()[at as int] == self.blocks@[at as int]@);
            }
            Some(&self.blocks[at])
        } else {
            proof {
                if self@.blocks.contains_key(id@) {
                    let k = choose|k: int| 0 <= k < self.listing().len() && self.listing()[k].id == id@;
                    assert(self.listing()[k].id == self.blocks@[k].id@);
                }
            }
            None
        }
    }

    /// All blocks in ascending id order.
    pub fn blocks(&self) -> (r: &[Block])
        ensures
            block_views(r@) == self.listing(),
    {
        self.blocks.as_slice()
    }
}

impl SortKey for Block {
    /// Ordered by round, then id.
    open spec fn precedes(&self, other: &Self) -> bool {
        self.round < other.round || (self.round == other.round && text_lt(self.id@, other.id@))
    }

    fn check_precedes(&self, other: &Self) -> (r: bool) {
        self.round < other.round || (self.round == other.round && str_lt(self.id.as_str(), other.id.as_str()))
    }
}

proof fn lemma_sorted_insert_views(s1: Seq<Block>, s2: Seq<Block>, x1: Block, x2: Block)
    requires
        block_views(s1) == block_views(s2),
        x1@ == x2@,
    ensures
        block_views(crate::sorting::sorted_insert(s1, x1)) == block_views(crate::sorting::sorted_insert(s2, x2)),
    decreases s1.len(),
{
    assert(s1.len() == s2.len()) by {
        assert(block_views(s1).len() == s1.len());
    }
    if s1.len() > 0 {
        assert(s1.last()@ == block_views(s1)[s1.len() - 1]);
        assert(s2.last()@ == block_views(s2)[s2.len() - 1]);
        assert(block_views(s1.drop_last()) =~= block_views(s1).drop_last());
        assert(block_views(s2.drop_last()) =~= block_views(s2).drop_last());
        lemma_sorted_insert_views(s1.drop_last(), s2.drop_last(), x1, x2);
        let r1 = crate::sorting::sorted_insert(s1, x1);
        let r2 = crate::sorting::sorted_insert(s2, x2);
        if x1.precedes(&s1.last()) {
            assert(block_views(r1) =~= block_views(crate::sorting::sorted_insert(s1.drop_last(), x1)).push(s1.last()@));
            assert(block_views(r2) =~= block_views(crate::sorting::sorted_insert(s2.drop_last(), x2)).push(s2.last()@));
        } else {
            assert(block_views(r1) =~= block_views(s1).push(x1@));
            assert(block_views(r2) =~= block_views(s2).push(x2@));
        }
    } else {
        assert(block_views(seq![x1]) =~= block_views(seq![x2]));
    }
}

proof fn lemma_stable_sorted_views(s1: Seq<Block>, s2: Seq<Block>)
    requires
        block_views(s1) == block_views(s2),
    ensures
        block_views(stable_sorted(s1)) == block_views(stable_sorted(s2)),
    decreases s1.len(),
{
    assert(s1.len() == s2.len()) by {
        assert(block_views(s1).len() == s1.len());
    }
    if s1.len() > 0 {
        assert(block_views(s1.drop_last()) =~= block_views(s1).drop_last());
        assert(block_views(s2.drop_last()) =~= block_views(s2).drop_last());
        assert(s1.last()@ == block_views(s1)[s1.len() - 1]);
        assert(s2.last()@ == block_views(s2)[s2.len() - 1]);
        lemma_stable_sorted_views(s1.drop_last(), s2.drop_last());
        lemma_sorted_insert_views(stable_sorted(s1.drop_last()), stable_sorted(s2.drop_last()), s1.last(), s2.last());
    }
}

/// What `Dag::build` decides: the blocks ordered by (round, id), stably, then admitted in turn.
pub open spec fn build_outcome(roster: Seq<Authority>, blocks: Seq<Block>) -> Result<DagState, DagFault> {
    insert_all(roster, empty_dag(), block_views(stable_sorted(blocks)))
}

/// Admission depends on the committee only through its members' id texts and stakes.
pub proof fn lemma_insert_all_views(r1: Seq<Authority>, r2: Seq<Authority>, dag: DagState, bs: Seq<BlockView>)
    requires
        authority_views(r1) == authority_views(r2),
    ensures
        insert_all(r1, dag, bs) == insert_all(r2, dag, bs),
    decreases bs.len(),
{
    if bs.len() > 0 {
        lemma_insert_all_views(r1, r2, dag, bs.drop_last());
        lemma_stake_lookup_views(r1, r2, bs.last().author);
    }
}

/// Building depends on the committee only through its members' id texts and stakes.
pub proof fn lemma_build_outcome_views(r1: Seq<Authority>, r2: Seq<Authority>, blocks: Seq<Block>)
    requires
        authority_views(r1) == authority_views(r2),
    ensures
        build_outcome(r1, blocks) == build_outcome(r2, blocks),
{
    lemma_insert_all_views(r1, r2, empty_dag(), block_views(stable_sorted(blocks)));
}

/// Building depends on the blocks only through their views.
pub proof fn lemma_build_outcome_blocks(roster: Seq<Authority>, b1: Seq<Block>, b2: Seq<Block>)
    requires
        block_views(b1) == block_views(b2),
    ensures
        build_outcome(roster, b1) == build_outcome(roster, b2),
{
    lemma_stable_sorted_views(b1, b2);
}

/// Every stored block of `dag` is keyed by its id and passes the admission checks
/// against the rest: its author is a member, its id and parents are canonical, its round
/// lies in its wave, its identity is recorded and no other stored block shares it, and
/// each parent is stored, in the same slot, one round earlier.
pub open spec fn dag_consistent(roster: Seq<Authority>, dag: DagState) -> bool {
    &&& forall|id: Seq<char>| #[trigger] dag.blocks.contains_key(id) ==> {
        let x = dag.blocks[id];
        &&& x.id == id
        &&& stake_lookup(roster, x.author) is Some
        &&& id_is_canonical(x)
        &&& adjacent_ascending(x.parents)
        &&& round_in_wave(x.round, x.slot)
        &&& dag.identities.contains(identity_of(x))
        &&& forall|k: int| 0 <= k < x.parents.len() ==> {
            &&& dag.blocks.contains_key(#[trigger] x.parents[k])
            &&& dag.blocks[x.parents[k]].slot == x.slot
            &&& dag.blocks[x.parents[k]].round + 1 == x.round
        }
    }
    &&& forall|a: Seq<char>, b: Seq<char>| #[trigger] dag.blocks.contains_key(a) && #[trigger] dag.blocks.contains_key(b) && a != b
        ==> identity_of(dag.blocks[a]) != identity_of(dag.blocks[b])
}

/// A block that a consistent DAG admits has an id that no stored block has, unless a
/// stored block of another identity already has it.
pub proof fn lemma_admitted_id_fresh(roster: Seq<Authority>, dag: DagState, b: BlockView)
    requires
        dag_consistent(roster, dag),
        insert_fault(roster, dag, b) is None,
        !id_taken_by_other(dag, b),
    ensures
        !dag.blocks.contains_key(b.id),
{
    if dag.blocks.contains_key(b.id) {
        let x = dag.blocks[b.id];
        assert(identity_of(x) == identity_of(b));
        assert(dag.identities.contains(identity_of(b)));
    }
}

/// Insertion keeps a DAG consistent: a block that passes the admission checks joins a
/// consistent DAG and leaves it consistent, unless a stored block of another identity has
/// its id (their SHA-256 block digests coincide), which the new block would replace. So a
/// proposal (round `3 * slot`) never has parents, and every parent of a certificate is a
/// support block of its slot.
pub proof fn insert_keeps_consistency(roster: Seq<Authority>, dag: DagState, b: BlockView)
    requires
        dag_consistent(roster, dag),
        insert_fault(roster, dag, b) is None,
        !id_taken_by_other(dag, b),
    ensures
        dag_consistent(roster, with_block(dag, b)),
        b.round == 3 * b.slot ==> b.parents.len() == 0,
        b.round == 3 * b.slot + 2 ==> forall|k: int| 0 <= k < b.parents.len()
            ==> dag.blocks[#[trigger] b.parents[k]].round == 3 * b.slot + 1 && dag.blocks[b.parents[k]].slot == b.slot,
{
    let nd = with_block(dag, b);
    lemma_first_parent_fault_none(dag.blocks, b, b.parents);
    lemma_admitted_id_fresh(roster, dag, b);
    assert forall|id: Seq<char>| #[trigger] nd.blocks.contains_key(id) implies {
        let x = nd.blocks[id];
        &&& x.id == id
        &&& stake_lookup(roster, x.author) is Some
        &&& id_is_canonical(x)
        &&& adjacent_ascending(x.parents)
        &&& round_in_wave(x.round, x.slot)
        &&& nd.identities.contains(identity_of(x))
        &&& forall|k: int| 0 <= k < x.parents.len() ==> {
            &&& nd.blocks.contains_key(#[trigger] x.parents[k])
            &&& nd.blocks[x.parents[k]].slot == x.slot
            &&& nd.blocks[x.parents[k]].round + 1 == x.round
        }
    } by {
        let x = nd.blocks[id];
        if id == b.id {
            assert forall|k: int| 0 <= k < x.parents.len() implies {
                &&& nd.blocks.contains_key(#[trigger] x.parents[k])
                &&& nd.blocks[x.parents[k]].slot == x.slot
                &&& nd.blocks[x.parents[k]].round + 1 == x.round
            } by {
                assert(parent_fault(dag.blocks, b, b.parents[k]) is None);
                assert(b.parents[k] != b.id);
            }
        } else {
            assert(dag.blocks.contains_key(id));
            assert forall|k: int| 0 <= k < x.parents.len() implies {
                &&& nd.blocks.contains_key(#[trigger] x.parents[k])
                &&& nd.blocks[x.parents[k]].slot == x.slot
                &&& nd.blocks[x.parents[k]].round + 1 == x.round
            } by {
                assert(dag.blocks.contains_key(x.parents[k]));
            }
        }
    }
    assert forall|a: Seq<char>, c: Seq<char>| #[trigger] nd.blocks.contains_key(a) && #[trigger] nd.blocks.contains_key(c) && a != c
        implies identity_of(nd.blocks[a]) != identity_of(nd.blocks[c]) by {
        if a == b.id {
            assert(dag.blocks.contains_key(c));
            assert(dag.identities.contains(identity_of(dag.blocks[c])));
        } else if c == b.id {
            assert(dag.blocks.contains_key(a));
            assert(dag.identities.contains(identity_of(dag.blocks[a])));
        } else {
            assert(dag.blocks.contains_key(a) && dag.blocks.contains_key(c));
        }
    }
    if b.round == 3 * b.slot && b.parents.len() > 0 {
        assert(parent_fault(dag.blocks, b, b.parents[0]) is None);
        let p = dag.blocks[b.parents[0]];
        assert(dag.blocks.contains_key(b.parents[0]));
        assert(round_in_wave(p.round, p.slot));
    }
    assert forall|k: int| 0 <= k < b.parents.len() implies dag.blocks.contains_key(#[trigger] b.parents[k])
        && dag.blocks[b.parents[k]].slot == b.slot && dag.blocks[b.parents[k]].round + 1 == b.round by {
        assert(parent_fault(dag.blocks, b, b.parents[k]) is None);
    }
}

/// Each pair of entries of `s` is in (round, id) order or equal.
pub open spec fn weakly_ordered(s: Seq<Block>) -> bool {
    forall|i: int, j: int| 0 <= i < j < s.len() ==> #[trigger] s[i].precedes(&s[j]) || s[i] == s[j]
}

proof fn lemma_block_order_transitive(a: Block, b: Block, c: Block)
    requires
        a.precedes(&b),
        b.precedes(&c),
    ensures
        a.precedes(&c),
{
    if a.round == b.round && b.round == c.round {
        lemma_text_lt_transitive(a.id@, b.id@, c.id@);
    }
}

proof fn lemma_block_order_asymmetric(a: Block, b: Block)
    requires
        a.precedes(&b),
    ensures
        !b.precedes(&a),
        a != b,
{
    if a.round == b.round {
        lemma_text_lt_asymmetric(a.id@, b.id@);
        lemma_text_lt_irreflexive(a.id@);
    }
}

/// The stable sort of blocks no two of which share an id puts them in (round, id) order.
proof fn lemma_sorted_weakly_ordered(blocks: Seq<Block>)
    requires
        forall|x: Block, y: Block| blocks.contains(x) && blocks.contains(y) && x.id@ == y.id@ ==> x == y,
    ensures
        weakly_ordered(stable_sorted(blocks)),
{
    let t = stable_sorted(blocks);
    lemma_stable_sorted_elements(blocks);
    assert forall|a: Block, c: Block| #[trigger] a.precedes(&c) implies !c.precedes(&a) by {
        lemma_block_order_asymmetric(a, c);
    }
    lemma_stable_sorted_adjacent(blocks);
    assert forall|i: int, l: int| 0 <= i && l == i + 1 && l < t.len() implies #[trigger] t[i].precedes(&t[l]) || t[i] == t[l] by {
        assert(blocks.contains(t[i]) && blocks.contains(t[i + 1]));
        assert(!t[i + 1].precedes(&t[i]));
        if t[i] != t[i + 1] {
            assert(t[i].id@ != t[i + 1].id@);
            if t[i].round == t[i + 1].round {
                lemma_text_lt_total(t[i].id@, t[i + 1].id@);
            }
        }
    }
    assert forall|i: int, j: int| 0 <= i < j < t.len() implies #[trigger] t[i].precedes(&t[j]) || t[i] == t[j] by {
        lemma_weak_chain(t, i, j);
    }
}

proof fn lemma_weak_chain(t: Seq<Block>, i: int, j: int)
    requires
        0 <= i < j < t.len(),
        forall|k: int, l: int| 0 <= k && l == k + 1 && l < t.len() ==> #[trigger] t[k].precedes(&t[l]) || t[k] == t[l],
    ensures
        t[i].precedes(&t[j]) || t[i] == t[j],
    decreases j - i,
{
    if j > i + 1 {
        lemma_weak_chain(t, i, j - 1);
        assert(t[j - 1].precedes(&t[j]) || t[j - 1] == t[j]);
        if t[i].precedes(&t[j - 1]) && t[j - 1].precedes(&t[j]) {
            lemma_block_order_transitive(t[i], t[j - 1], t[j]);
        }
    }
}

/// Two listings in (round, id) order with the same blocks are equal.
proof fn lemma_weakly_ordered_unique(s1: Seq<Block>, s2: Seq<Block>)
    requires
        weakly_ordered(s1),
        weakly_ordered(s2),
        s1.to_multiset() == s2.to_multiset(),
    ensures
        s1 == s2,
    decreases s1.len(),
{
    broadcast use vstd::seq_lib::group_to_multiset_ensures;
    assert(s1.len() == s2.len()) by {
        assert(s1.len() == s1.to_multiset().len());
        assert(s2.len() == s2.to_multiset().len());
    }
    if s1.len() > 0 {
        let n = s1.len() - 1;
        let a = s1[n];
        let b = s2[n];
        if a != b {
            assert(s1.to_multiset().count(a) > 0);
            assert(s2.contains(a));
            let k = choose|k: int| 0 <= k < s2.len() && s2[k] == a;
            assert(s2.contains(b));
            assert(s1.to_multiset().count(b) > 0);
            let m = choose|m: int| 0 <= m < s1.len() && s1[m] == b;
            assert(k < n && m < n);
            assert(s2[k].precedes(&s2[n]) || s2[k] == s2[n]);
            assert(s1[m].precedes(&s1[n]) || s1[m] == s1[n]);
            lemma_block_order_asymmetric(a, b);
        }
        let d1 = s1.drop_last();
        let d2 = s2.drop_last();
        assert(s1 =~= d1.push(a));
        assert(s2 =~= d2.push(a));
        assert(d1.to_multiset() =~= d2.to_multiset()) by {
            assert(d1.push(a).to_multiset() =~= d1.to_multiset().insert(a));
            assert(d2.push(a).to_multiset() =~= d2.to_multiset().insert(a));
            assert forall|x: Block| #[trigger] d1.to_multiset().count(x) == d2.to_multiset().count(x) by {
                assert(d1.to_multiset().insert(a).count(x) == d2.to_multiset().insert(a).count(x));
            }
        }
        assert forall|i: int, j: int| 0 <= i < j < d1.len() implies #[trigger] d1[i].precedes(&d1[j]) || d1[i] == d1[j] by {
            assert(s1[i].precedes(&s1[j]) || s1[i] == s1[j]);
        }
        assert forall|i: int, j: int| 0 <= i < j < d2.len() implies #[trigger] d2[i].precedes(&d2[j]) || d2[i] == d2[j] by {
            assert(s2[i].precedes(&s2[j]) || s2[i] == s2[j]);
        }
        lemma_weakly_ordered_unique(d1, d2);
    }
}

/// Building does not depend on the order of its input: any two orderings of the same
/// blocks (repeats included), no two different ones of which share an id, build the same
/// DAG or fail alike.
pub proof fn build_ignores_order(roster: Seq<Authority>, b1: Seq<Block>, b2: Seq<Block>)
    requires
        b1.to_multiset() == b2.to_multiset(),
        forall|i: int, j: int| 0 <= i < b1.len() && 0 <= j < b1.len() && #[trigger] b1[i].id@ == #[trigger] b1[j].id@ ==> b1[i] == b1[j],
    ensures
        build_outcome(roster, b1) == build_outcome(roster, b2),
{
    broadcast use vstd::seq_lib::group_to_multiset_ensures;
    assert forall|x: Block, y: Block| b1.contains(x) && b1.contains(y) && x.id@ == y.id@ implies x == y by {
        let i = choose|i: int| 0 <= i < b1.len() && b1[i] == x;
        let j = choose|j: int| 0 <= j < b1.len() && b1[j] == y;
        assert(b1[i].id@ == b1[j].id@);
    }
    assert forall|x: Block| b2.contains(x) <==> b1.contains(x) by {
        vstd::seq_lib::to_multiset_contains(b1, x);
        vstd::seq_lib::to_multiset_contains(b2, x);
    }
    lemma_sorted_weakly_ordered(b1);
    lemma_sorted_weakly_ordered(b2);
    lemma_stable_sorted_multiset(b1);
    lemma_stable_sorted_multiset(b2);
    lemma_weakly_ordered_unique(stable_sorted(b1), stable_sorted(b2));
}

/// Two valid DAGs with the same view list the same blocks.
#[verifier::spinoff_prover]
#[verifier::rlimit(40)]
pub proof fn lemma_listing_determined(d1: Dag, d2: Dag)
    requires
        d1.valid(),
        d2.valid(),
        d1@ == d2@,
    ensures
        d1.listing() == d2.listing(),
{
    d1.lemma_listing();
    d2.lemma_listing();
    let s1 = d1.listing();
    let s2 = d2.listing();
    let ids1 = s1.map_values(|b: BlockView| b.id);
    let ids2 = s2.map_values(|b: BlockView| b.id);
    assert(crate::lexical::strictly_ascending(ids1)) by {
        assert forall|i: int, j: int| 0 <= i < j < ids1.len() implies text_lt(#[trigger] ids1[i], #[trigger] ids1[j]) by {
            assert(text_lt(s1[i].id, s1[j].id));
        }
    }
    assert(crate::lexical::strictly_ascending(ids2)) by {
        assert forall|i: int, j: int| 0 <= i < j < ids2.len() implies text_lt(#[trigger] ids2[i], #[trigger] ids2[j]) by {
            assert(text_lt(s2[i].id, s2[j].id));
        }
    }
    assert forall|x: Seq<char>| ids1.to_set().contains(x) <==> #[trigger] ids2.to_set().contains(x) by {
        if ids1.to_set().contains(x) {
            let i = choose|i: int| 0 <= i < ids1.len() && ids1[i] == x;
            assert(d1@.blocks.contains_key(s1[i].id));
            let j = choose|j: int| 0 <= j < s2.len() && s2[j].id == x;
            assert(ids2[j] == x);
        }
        if ids2.to_set().contains(x) {
            let i = choose|i: int| 0 <= i < ids2.len() && ids2[i] == x;
            assert(d2@.blocks.contains_key(s2[i].id));
            let j = choose|j: int| 0 <= j < s1.len() && s1[j].id == x;
            assert(ids1[j] == x);
        }
    }
    assert(ids1.to_set() =~= ids2.to_set());
    crate::lexical::lemma_ascending_unique(ids1, ids2);
    assert forall|i: int| 0 <= i < s1.len() implies #[trigger] s1[i] == s2[i] by {
        assert(ids1[i] == ids2[i]);
        assert(d1@.blocks.contains_key(s1[i].id) && d1@.blocks[s1[i].id] == s1[i]);
        assert(d2@.blocks.contains_key(s2[i].id) && d2@.blocks[s2[i].id] == s2[i]);
    }
    assert(s1 =~= s2);
}

/// Every block of `s` passes the checks that concern it alone under `roster` (member
/// author, canonical id, canonical parents, round inside its wave), and each of its
/// parents names a block of `s` one round below in the same slot.
pub open spec fn self_contained(roster: Seq<Authority>, s: Seq<BlockView>) -> bool {
    &&& forall|j: int| 0 <= j < s.len() ==> {
        &&& stake_lookup(roster, (#[trigger] s[j]).author) is Some
        &&& id_is_canonical(s[j])
        &&& adjacent_ascending(s[j].parents)
        &&& round_in_wave(s[j].round, s[j].slot)
    }
    &&& forall|j: int, k: int| 0 <= j < s.len() && 0 <= k < s[j].parents.len() ==>
        exists|i: int| 0 <= i < s.len() && s[i].id == #[trigger] s[j].parents[k] && s[i].slot == s[j].slot && s[i].round + 1 == s[j].round
}

/// The DAG that holds exactly the blocks of `s`.
pub open spec fn listing_state(s: Seq<BlockView>) -> DagState {
    DagState { blocks: listing_map(s), identities: s.map_values(|b: BlockView| identity_of(b)).to_set() }
}

proof fn lemma_listing_map_distinct(s: Seq<BlockView>, i: int)
    requires
        keys_distinct(s, |b: BlockView| b.id),
        0 <= i < s.len(),
    ensures
        listing_map(s).contains_key(s[i].id),
        listing_map(s)[s[i].id] == s[i],
    decreases s.len(),
{
    if i < s.len() - 1 {
        let d = s.drop_last();
        assert(keys_distinct(d, |b: BlockView| b.id)) by {
            assert forall|a: int, b: int| #![trigger d[a], d[b]] 0 <= a < b < d.len() implies d[a].id != d[b].id by {
                assert(d[a] == s[a] && d[b] == s[b]);
                assert((|b: BlockView| b.id)(s[a]) != (|b: BlockView| b.id)(s[b]));
            }
        }
        assert((|b: BlockView| b.id)(s[i]) != (|b: BlockView| b.id)(s[s.len() - 1]));
        assert(d[i] == s[i]);
        lemma_listing_map_distinct(d, i);
    }
}

proof fn lemma_no_parent_fault(m: Map<Seq<char>, BlockView>, b: BlockView, ps: Seq<Seq<char>>)
    requires
        forall|k: int| 0 <= k < ps.len() ==> #[trigger] parent_fault(m, b, ps[k]) is None,
    ensures
        first_parent_fault(m, b, ps) is None,
    decreases ps.len(),
{
    if ps.len() > 0 {
        assert forall|k: int| 0 <= k < ps.drop_last().len() implies #[trigger] parent_fault(m, b, ps.drop_last()[k]) is None by {
            assert(ps.drop_last()[k] == ps[k]);
        }
        lemma_no_parent_fault(m, b, ps.drop_last());
        assert(parent_fault(m, b, ps[ps.len() - 1]) is None);
    }
}

proof fn lemma_prefix_distinct(s: Seq<BlockView>, k: int)
    requires
        0 <= k <= s.len(),
        keys_distinct(s, |b: BlockView| b.id),
    ensures
        keys_distinct(s.take(k), |b: BlockView| b.id),
{
    let p = s.take(k);
    assert forall|a: int, c: int| #![trigger p[a], p[c]] 0 <= a < c < p.len() implies (|b: BlockView| b.id)(p[a]) != (|b: BlockView| b.id)(p[c]) by {
        assert(p[a] == s[a] && p[c] == s[c]);
    }
}

proof fn lemma_new_identity(s: Seq<BlockView>, k: int)
    requires
        0 < k <= s.len(),
        keys_distinct(s, |b: BlockView| identity_of(b)),
    ensures
        !listing_state(s.take(k - 1)).identities.contains(identity_of(s[k - 1])),
{
    let p = s.take(k - 1);
    let ids = p.map_values(|b: BlockView| identity_of(b));
    if ids.to_set().contains(identity_of(s[k - 1])) {
        let a = choose|a: int| 0 <= a < ids.len() && #[trigger] ids[a] == identity_of(s[k - 1]);
        assert(p[a] == s[a]);
        assert((|b: BlockView| identity_of(b))(s[a]) != (|b: BlockView| identity_of(b))(s[k - 1]));
    }
}

proof fn lemma_parents_present(roster: Seq<Authority>, s: Seq<BlockView>, k: int)
    requires
        0 < k <= s.len(),
        self_contained(roster, s),
        keys_distinct(s, |b: BlockView| b.id),
        forall|i: int, j: int| #![trigger s[i], s[j]] 0 <= i <= j < s.len() ==> s[i].round <= s[j].round,
    ensures
        first_parent_fault(listing_state(s.take(k - 1)).blocks, s[k - 1], s[k - 1].parents) is None,
{
    let p = s.take(k - 1);
    let b = s[k - 1];
    let m = listing_state(p).blocks;
    lemma_prefix_distinct(s, k - 1);
    assert forall|q: int| 0 <= q < b.parents.len() implies #[trigger] parent_fault(m, b, b.parents[q]) is None by {
        let i = choose|i: int| 0 <= i < s.len() && s[i].id == s[k - 1].parents[q] && s[i].slot == s[k - 1].slot && s[i].round + 1 == s[k - 1].round;
        if i >= k - 1 {
            assert(s[k - 1].round <= s[i].round);
        }
        assert(p[i] == s[i]);
        lemma_listing_map_distinct(p, i);
    }
    lemma_no_parent_fault(m, b, b.parents);
}

/// Adding the `k`-th block of a listing to the DAG of the blocks before it gives the
/// DAG of the first `k` blocks.
proof fn lemma_state_step(s: Seq<BlockView>, k: int)
    requires
        0 < k <= s.len(),
    ensures
        with_block(listing_state(s.take(k - 1)), s[k - 1]) == listing_state(s.take(k)),
{
    let t = s.take(k);
    let p = s.take(k - 1);
    let b = s[k - 1];
    assert(t.drop_last() =~= p);
    assert(t.last() == b);
    assert(listing_map(t) == listing_map(p).insert(b.id, b));
    let it = t.map_values(|b: BlockView| identity_of(b));
    let ip = p.map_values(|b: BlockView| identity_of(b));
    assert(it =~= ip.push(identity_of(b)));
    assert forall|x: (Seq<char>, u32, u32, u32)| #[trigger] it.to_set().contains(x) <==> ip.to_set().insert(identity_of(b)).contains(x) by {
        if it.to_set().contains(x) {
            let a = choose|a: int| 0 <= a < it.len() && it[a] == x;
            if a < ip.len() {
                assert(ip[a] == x);
            }
        }
        if ip.to_set().contains(x) {
            let a = choose|a: int| 0 <= a < ip.len() && ip[a] == x;
            assert(it[a] == x);
        }
        if x == identity_of(b) {
            assert(it[it.len() - 1] == x);
        }
    }
    assert(listing_state(t).identities =~= listing_state(p).identities.insert(identity_of(b)));
}

/// The listing's `k`-th block is admitted by the DAG of the blocks before it.
proof fn lemma_step_at(roster: Seq<Authority>, s: Seq<BlockView>, k: int)
    requires
        0 < k <= s.len(),
        self_contained(roster, s),
        keys_distinct(s, |b: BlockView| b.id),
        keys_distinct(s, |b: BlockView| identity_of(b)),
        forall|i: int, j: int| #![trigger s[i], s[j]] 0 <= i <= j < s.len() ==> s[i].round <= s[j].round,
    ensures
        insert_fault(roster, listing_state(s.take(k - 1)), s[k - 1]) is None,
{
    lemma_new_identity(s, k);
    lemma_parents_present(roster, s, k);
    let b = s[k - 1];
    assert(stake_lookup(roster, b.author) is Some);
    assert(id_is_canonical(b));
    assert(adjacent_ascending(b.parents));
    assert(round_in_wave(b.round, b.slot));
}

/// Admitting, in order, the blocks of a self-contained listing with distinct ids and
/// identities and nondecreasing rounds succeeds and yields the DAG of those blocks.
proof fn lemma_insert_prefix(roster: Seq<Authority>, s: Seq<BlockView>, k: int)
    requires
        0 <= k <= s.len(),
        self_contained(roster, s),
        keys_distinct(s, |b: BlockView| b.id),
        keys_distinct(s, |b: BlockView| identity_of(b)),
        forall|i: int, j: int| #![trigger s[i], s[j]] 0 <= i <= j < s.len() ==> s[i].round <= s[j].round,
    ensures
        insert_all(roster, empty_dag(), s.take(k)) == Ok::<DagState, DagFault>(listing_state(s.take(k))),
    decreases k,
{
    if k == 0 {
        assert(listing_state(s.take(0)).identities =~= Set::<(Seq<char>, u32, u32, u32)>::empty());
        assert(listing_state(s.take(0)).blocks =~= Map::<Seq<char>, BlockView>::empty());
    } else {
        lemma_insert_prefix(roster, s, k - 1);
        lemma_step_at(roster, s, k);
        lemma_state_step(s, k);
        assert(s.take(k).drop_last() =~= s.take(k - 1));
        assert(s.take(k).last() == s[k - 1]);
    }
}

/// Blocks that are self-contained, with distinct ids and distinct identities, always
/// build into a DAG, whatever order they are listed in.
pub proof fn lemma_build_succeeds(roster: Seq<Authority>, blocks: Seq<Block>)
    requires
        self_contained(roster, block_views(blocks)),
        keys_distinct(block_views(blocks), |b: BlockView| b.id),
        keys_distinct(block_views(blocks), |b: BlockView| identity_of(b)),
    ensures
        build_outcome(roster, blocks) is Ok,
{
    let bv = block_views(blocks);
    let sorted = stable_sorted(blocks);
    let ss = block_views(sorted);
    lemma_stable_sorted_elements(blocks);
    lemma_stable_sorted_contains(blocks);
    assert forall|a: Block, c: Block| #[trigger] a.precedes(&c) implies !c.precedes(&a) by {
        if a.round == c.round {
            lemma_text_lt_asymmetric(a.id@, c.id@);
        }
    }
    assert(precedes_asymmetric::<Block>());
    lemma_stable_sorted_adjacent(blocks);
    let idk = |b: Block| b@.id;
    let ik = |b: Block| identity_of(b@);
    assert(keys_distinct(blocks, idk)) by {
        assert forall|i: int, j: int| #![trigger blocks[i], blocks[j]] 0 <= i < j < blocks.len() implies idk(blocks[i]) != idk(blocks[j]) by {
            assert(bv[i] == blocks[i]@ && bv[j] == blocks[j]@);
            assert((|b: BlockView| b.id)(bv[i]) != (|b: BlockView| b.id)(bv[j]));
        }
    }
    assert(keys_distinct(blocks, ik)) by {
        assert forall|i: int, j: int| #![trigger blocks[i], blocks[j]] 0 <= i < j < blocks.len() implies ik(blocks[i]) != ik(blocks[j]) by {
            assert(bv[i] == blocks[i]@ && bv[j] == blocks[j]@);
            assert((|b: BlockView| identity_of(b))(bv[i]) != (|b: BlockView| identity_of(b))(bv[j]));
        }
    }
    lemma_stable_sorted_distinct(blocks, idk);
    lemma_stable_sorted_distinct(blocks, ik);
    assert(keys_distinct(ss, |b: BlockView| b.id)) by {
        assert forall|i: int, j: int| #![trigger ss[i], ss[j]] 0 <= i < j < ss.len() implies (|b: BlockView| b.id)(ss[i]) != (|b: BlockView| b.id)(ss[j]) by {
            assert(idk(sorted[i]) != idk(sorted[j]));
        }
    }
    assert(keys_distinct(ss, |b: BlockView| identity_of(b))) by {
        assert forall|i: int, j: int| #![trigger ss[i], ss[j]] 0 <= i < j < ss.len() implies (|b: BlockView| identity_of(b))(ss[i]) != (|b: BlockView| identity_of(b))(ss[j]) by {
            assert(ik(sorted[i]) != ik(sorted[j]));
        }
    }
    // Rounds never decrease along the sorted listing.
    assert forall|i: int, j: int| #![trigger ss[i], ss[j]] 0 <= i <= j < ss.len() implies ss[i].round <= ss[j].round by {
        lemma_rounds_nondecreasing(sorted, i, j);
    }
    // Each sorted block is a listed block, and each listed block is in the sorted listing.
    assert forall|j: int| 0 <= j < ss.len() implies exists|m: int| 0 <= m < bv.len() && #[trigger] ss[j] == bv[m] by {
        assert(blocks.contains(sorted[j]));
        let m = choose|m: int| 0 <= m < blocks.len() && blocks[m] == sorted[j];
        assert(bv[m] == ss[j]);
    }
    assert(self_contained(roster, ss)) by {
        assert forall|j: int| 0 <= j < ss.len() implies {
            &&& stake_lookup(roster, (#[trigger] ss[j]).author) is Some
            &&& id_is_canonical(ss[j])
            &&& adjacent_ascending(ss[j].parents)
            &&& round_in_wave(ss[j].round, ss[j].slot)
        } by {
            let m = choose|m: int| 0 <= m < bv.len() && #[trigger] ss[j] == bv[m];
            assert(bv[m] == ss[j]);
        }
        assert forall|j: int, k: int| 0 <= j < ss.len() && 0 <= k < ss[j].parents.len() implies
            exists|i: int| 0 <= i < ss.len() && ss[i].id == #[trigger] ss[j].parents[k] && ss[i].slot == ss[j].slot && ss[i].round + 1 == ss[j].round by {
            let m = choose|m: int| 0 <= m < bv.len() && #[trigger] ss[j] == bv[m];
            assert(bv[m].parents[k] == ss[j].parents[k]);
            let w = choose|w: int| 0 <= w < bv.len() && bv[w].id == #[trigger] bv[m].parents[k] && bv[w].slot == bv[m].slot && bv[w].round + 1 == bv[m].round;
            assert(sorted.contains(blocks[w]));
            let i = choose|i: int| 0 <= i < sorted.len() && sorted[i] == blocks[w];
            assert(ss[i] == bv[w]);
        }
    }
    lemma_insert_prefix(roster, ss, ss.len() as int);
    assert(ss.take(ss.len() as int) =~= ss);
}

proof fn lemma_rounds_nondecreasing(s: Seq<Block>, i: int, j: int)
    requires
        adjacent_in_order(s),
        0 <= i <= j < s.len(),
    ensures
        s[i].round <= s[j].round,
    decreases j - i,
{
    if i < j {
        lemma_rounds_nondecreasing(s, i, j - 1);
        assert(!s[j].precedes(&s[j - 1]));
    }
}

proof fn lemma_insert_all_values(roster: Seq<Authority>, dag: DagState, bs: Seq<BlockView>)
    requires
        insert_all(roster, dag, bs) is Ok,
    ensures
        forall|id: Seq<char>| #[trigger] insert_all(roster, dag, bs)->Ok_0.blocks.contains_key(id) ==>
            (dag.blocks.contains_key(id) && insert_all(roster, dag, bs)->Ok_0.blocks[id] == dag.blocks[id])
            || exists|k: int| 0 <= k < bs.len() && bs[k] == insert_all(roster, dag, bs)->Ok_0.blocks[id],
    decreases bs.len(),
{
    if bs.len() > 0 {
        let d = bs.drop_last();
        lemma_insert_all_values(roster, dag, d);
        let r = insert_all(roster, dag, bs)->Ok_0;
        let p = insert_all(roster, dag, d)->Ok_0;
        assert(r == with_block(p, bs.last()));
        assert forall|id: Seq<char>| #[trigger] r.blocks.contains_key(id) implies
            (dag.blocks.contains_key(id) && r.blocks[id] == dag.blocks[id])
            || exists|k: int| 0 <= k < bs.len() && bs[k] == r.blocks[id] by {
            if id == bs.last().id {
                assert(bs[bs.len() - 1] == r.blocks[id]);
            } else {
                assert(p.blocks.contains_key(id));
                if !(dag.blocks.contains_key(id) && p.blocks[id] == dag.blocks[id]) {
                    let k = choose|k: int| 0 <= k < d.len() && d[k] == p.blocks[id];
                    assert(bs[k] == d[k]);
                }
            }
        }
    }
}

/// Every block listed by a DAG built from `blocks` is one of `blocks`.
pub proof fn lemma_built_listing_from(roster: Seq<Authority>, blocks: Seq<Block>, d: Dag)
    requires
        d.valid(),
        build_outcome(roster, blocks) == Ok::<DagState, DagFault>(d@),
    ensures
        forall|i: int| 0 <= i < d.listing().len() ==> exists|m: int| 0 <= m < blocks.len() && #[trigger] d.listing()[i] == block_views(blocks)[m],
{
    d.lemma_listing();
    let sorted = stable_sorted(blocks);
    let bs = block_views(sorted);
    lemma_stable_sorted_elements(blocks);
    lemma_insert_all_values(roster, empty_dag(), bs);
    assert forall|i: int| 0 <= i < d.listing().len() implies exists|m: int| 0 <= m < blocks.len() && #[trigger] d.listing()[i] == block_views(blocks)[m] by {
        let b = d.listing()[i];
        d.lemma_listing();
        assert(0 <= i < d.listing().len());
        assert(d@.blocks.contains_key(d.listing()[i].id));
        let r = insert_all(roster, empty_dag(), bs)->Ok_0;
        assert(r == d@);
        assert(r.blocks.contains_key(b.id));
        assert(!empty_dag().blocks.contains_key(b.id));
        let k = choose|k: int| 0 <= k < bs.len() && bs[k] == r.blocks[b.id];
        assert(blocks.contains(sorted[k]));
        let m = choose|m: int| 0 <= m < blocks.len() && blocks[m] == sorted[k];
        assert(block_views(blocks)[m] == b);
    }
}

impl Dag {
    /// Builds a DAG from `blocks`, admitting them in (round, id) order.
    pub fn build(committee: &Committee, blocks: &[Block]) -> (res: Result<Dag, DagError>)
        ensures
            res is Ok <==> build_outcome(committee.roster(), blocks@) is Ok,
            res matches Ok(d) ==> d@ == build_outcome(committee.roster(), blocks@)->Ok_0,
            res matches Err(e) ==> build_outcome(committee.roster(), blocks@) == Err::<DagState, DagFault>(e@),
    {
        let mut copies: Vec<Block> = Vec::new();
        let mut i: usize = 0;
        while i < blocks.len()
            invariant
                i <= blocks@.len(),
                block_views(copies@) == block_views(blocks@).subrange(0, i as int),
            decreases blocks@.len() - i,
        {
            let c = blocks[i].duplicate();
            let ghost before = copies@;
            copies.push(c);
            proof {
                assert(block_views(copies@) =~= block_views(before).push(c@));
                assert(block_views(blocks@).subrange(0, i as int + 1) =~= block_views(blocks@).subrange(0, i as int).push(blocks@[i as int]@));
            }
            i = i + 1;
        }
        proof {
            assert(block_views(blocks@).subrange(0, blocks@.len() as int) =~= block_views(blocks@));
        }
        let ghost copies_seq = copies@;
        let ordered = stable_sort(copies);
        proof {
            lemma_stable_sorted_views(copies_seq, blocks@);
        }
        let ghost order = block_views(ordered@);
        let mut dag = Dag { blocks: Vec::new(), identities: Vec::new() };
        proof {
            assert(block_views(dag.blocks@) =~= Seq::<BlockView>::empty());
            assert(identity_texts(dag.identities@) =~= Set::<(Seq<char>, u32, u32, u32)>::empty());
            assert(dag@.blocks =~= Map::<Seq<char>, BlockView>::empty());
            assert(order.take(0) =~= Seq::<BlockView>::empty());
        }
        let n = ordered.len();
        let mut k: usize = 0;
        while k < n
            invariant
                n == order.len(),
                order == block_views(ordered@),
                order == block_views(stable_sorted(blocks@)),
                k <= n,
                insert_all(committee.roster(), empty_dag(), order.take(k as int)) == Ok::<DagState, DagFault>(dag@),
            decreases n - k,
        {
            let b = ordered[k].duplicate();
            assert(b@ == order[k as int]);
            proof {
                lemma_insert_all_step(committee.roster(), order, k as int);
            }
            match dag.insert(committee, b) {
                Ok(()) => {},
                Err(e) => {
                    proof {
                        lemma_insert_all_prefix_err(committee.roster(), order, k as int + 1);
                    }
                    return Err(e);
                },
            }
            k = k + 1;
        }
        proof {
            assert(order.take(n as int) =~= order);
        }
        Ok(dag)
    }
}

proof fn lemma_insert_all_prefix_err(roster: Seq<Authority>, bs: Seq<BlockView>, k: int)
    requires
        0 <= k <= bs.len(),
        insert_all(roster, empty_dag(), bs.take(k)) is Err,
    ensures
        insert_all(roster, empty_dag(), bs) == insert_all(roster, empty_dag(), bs.take(k)),
    decreases bs.len(),
{
    if k < bs.len() {
        assert(bs.drop_last().take(k) =~= bs.take(k));
        lemma_insert_all_prefix_err(roster, bs.drop_last(), k);
    } else {
        assert(bs.take(k) =~= bs);
    }
}

proof fn lemma_insert_all_step(roster: Seq<Authority>, bs: Seq<BlockView>, k: int)
    requires
        0 <= k < bs.len(),
        insert_all(roster, empty_dag(), bs.take(k)) is Ok,
    ensures
        insert_all(roster, empty_dag(), bs.take(k + 1)) == match insert_fault(roster, insert_all(roster, empty_dag(), bs.take(k))->Ok_0, bs[k]) {
            Some(f) => Err(f),
            None => Ok(with_block(insert_all(roster, empty_dag(), bs.take(k))->Ok_0, bs[k])),
        },
{
    assert(bs.take(k + 1).drop_last() =~= bs.take(k));
    assert(bs.take(k + 1).last() == bs[k]);
}

} // verus!
