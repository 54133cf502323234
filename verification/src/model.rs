use vstd::prelude::*;
use crate::identity::{block_id_for, block_id_text};
use crate::render::{digest_text_shaped, is_hex_digit};
use crate::lexical::{texts, strictly_ascending, ascending_distinct, text_lt, str_lt, lemma_text_lt_total, lemma_text_lt_transitive, lemma_text_lt_irreflexive};

verus! {

pub type Round = u32;

pub type Stake = u64;

pub type BlockId = String;

/// Name of an authority. Ordered as its text is.
#[derive(Clone, Debug, PartialEq, Eq, PartialOrd, Ord, Hash)]
pub struct AuthorityId(pub String);

impl View for AuthorityId {
    type V = Seq<char>;

    open spec fn view(&self) -> Seq<char> {
        self.0@
    }
}

impl AuthorityId {
    /// A copy with the same text.
    pub fn duplicate(&self) -> (r: AuthorityId)
        ensures
            r@ == self@,
    {
        AuthorityId(self.0.clone())
    }
}

/// A committee member and its voting stake.
#[derive(Clone, Debug, PartialEq, Eq)]
pub struct Authority {
    pub id: AuthorityId,
    pub stake: Stake,
}

impl Authority {
    /// A copy with the same id text and stake.
    pub fn duplicate(&self) -> (r: Authority)
        ensures
            r.id@ == self.id@,
            r.stake == self.stake,
    {
        Authority { id: self.id.duplicate(), stake: self.stake }
    }
}

/// Why a list of authorities is not a committee.
#[derive(Clone, Debug, PartialEq, Eq)]
pub enum CommitteeError {
    Empty,
    ZeroStake(String),
    Duplicate(String),
    Overflow,
}

/// The outcome of admitting authorities, with texts in place of strings.
pub enum CommitteeFault {
    Empty,
    ZeroStake(Seq<char>),
    Duplicate(Seq<char>),
    Overflow,
}

impl View for CommitteeError {
    type V = CommitteeFault;

    open spec fn view(&self) -> CommitteeFault {
        match self {
            CommitteeError::Empty => CommitteeFault::Empty,
            CommitteeError::ZeroStake(s) => CommitteeFault::ZeroStake(s@),
            CommitteeError::Duplicate(s) => CommitteeFault::Duplicate(s@),
            CommitteeError::Overflow => CommitteeFault::Overflow,
        }
    }
}

/// The message text of a committee fault.
pub open spec fn committee_fault_text(f: CommitteeFault) -> Seq<char> {
    match f {
        CommitteeFault::Empty => "committee must not be empty"@,
        CommitteeFault::ZeroStake(a) => "authority "@ + a + " has zero stake"@,
        CommitteeFault::Duplicate(a) => "duplicate authority "@ + a,
        CommitteeFault::Overflow => "total stake overflow"@,
    }
}

impl CommitteeError {
    /// The error's message text.
    pub fn message(&self) -> (s: String)
        ensures
            s@ == committee_fault_text(self@),
    {
        match self {
            CommitteeError::Empty => String::from_str("committee must not be empty"),
            CommitteeError::ZeroStake(a) => {
                let mut s = String::from_str("authority ");
                s.append(a.as_str());
                s.append(" has zero stake");
                s
            },
            CommitteeError::Duplicate(a) => {
                let mut s = String::from_str("duplicate authority ");
                s.append(a.as_str());
                s
            },
            CommitteeError::Overflow => String::from_str("total stake overflow"),
        }
    }
}

/// Sum of all stakes of `auths`.
pub open spec fn stake_total(auths: Seq<Authority>) -> nat
    decreases auths.len(),
{
    if auths.len() == 0 {
        0
    } else {
        stake_total(auths.drop_last()) + auths.last().stake as nat
    }
}

/// Sum of the stakes of those members of `auths` whose id is in `ids`; each member counts once.
pub open spec fn stake_of_set(auths: Seq<Authority>, ids: Set<Seq<char>>) -> nat
    decreases auths.len(),
{
    if auths.len() == 0 {
        0
    } else {
        stake_of_set(auths.drop_last(), ids) + if ids.contains(auths.last().id@) {
            auths.last().stake as nat
        } else {
            0
        }
    }
}

/// The stake registered for `id` in `auths` (its first entry), if any.
pub open spec fn stake_lookup(auths: Seq<Authority>, id: Seq<char>) -> Option<u64>
    decreases auths.len(),
{
    if auths.len() == 0 {
        None
    } else if auths[0].id@ == id {
        Some(auths[0].stake)
    } else {
        stake_lookup(auths.drop_first(), id)
    }
}

/// Authorities admitted one after another: each must have positive stake, an id not
/// seen before, and keep the running total within `u64`. The first failure is reported.
pub open spec fn admission(auths: Seq<(Seq<char>, u64)>) -> Result<(Map<Seq<char>, u64>, nat), CommitteeFault>
    decreases auths.len(),
{
    if auths.len() == 0 {
        Ok((Map::empty(), 0))
    } else {
        match admission(auths.drop_last()) {
            Err(e) => Err(e),
            Ok((m, t)) => {
                let (id, stake) = auths.last();
                if stake == 0 {
                    Err(CommitteeFault::ZeroStake(id))
                } else if m.contains_key(id) {
                    Err(CommitteeFault::Duplicate(id))
                } else if t + stake > u64::MAX {
                    Err(CommitteeFault::Overflow)
                } else {
                    Ok((m.insert(id, stake), t + stake as nat))
                }
            },
        }
    }
}

/// Id text and stake of each authority.
pub open spec fn authority_views(s: Seq<Authority>) -> Seq<(Seq<char>, u64)> {
    s.map_values(|a: Authority| (a.id@, a.stake))
}

/// What `Committee::new` decides for `auths`.
pub open spec fn committee_outcome(auths: Seq<(Seq<char>, u64)>) -> Result<(Map<Seq<char>, u64>, nat), CommitteeFault> {
    if auths.len() == 0 {
        Err(CommitteeFault::Empty)
    } else {
        admission(auths)
    }
}

/// Ids of `auths` in strictly ascending order.
pub open spec fn ids_ascending(auths: Seq<Authority>) -> bool {
    forall|i: int, j: int| 0 <= i < j < auths.len() ==> text_lt(#[trigger] auths[i].id@, #[trigger] auths[j].id@)
}

/// A validated committee: nonempty, distinct ids kept in ascending order, positive
/// stakes, and a total stake that fits in `u64`.
#[derive(Debug, PartialEq, Eq)]
pub struct Committee {
    members: Vec<Authority>,
    total_stake: Stake,
}

impl Committee {
    /// Nonempty, ids strictly ascending, stakes positive, total recorded exactly.
    #[verifier::type_invariant]
    pub closed spec fn valid(&self) -> bool {
        &&& self.members@.len() > 0
        &&& ids_ascending(self.members@)
        &&& forall|i: int| 0 <= i < self.members@.len() ==> #[trigger] self.members@[i].stake > 0
        &&& self.total_stake == stake_total(self.members@)
    }

    /// The members, ascending by id.
    pub closed spec fn roster(&self) -> Seq<Authority> {
        self.members@
    }

    /// The total stake.
    pub closed spec fn total(&self) -> nat {
        self.total_stake as nat
    }

    /// The member facts that the type maintains.
    pub proof fn lemma_roster(&self)
        requires
            self.valid(),
        ensures
            self.roster().len() > 0,
            ids_ascending(self.roster()),
            forall|i: int| 0 <= i < self.roster().len() ==> #[trigger] self.roster()[i].stake > 0,
            self.total() == stake_total(self.roster()),
            self.total() <= u64::MAX,
    {
    }
}

/// The ids of `roster` are exactly the keys of `m`, each with its recorded stake.
pub open spec fn roster_matches(roster: Seq<Authority>, m: Map<Seq<char>, u64>) -> bool {
    &&& forall|i: int| 0 <= i < roster.len() ==> #[trigger] m.contains_key(roster[i].id@) && m[roster[i].id@] == roster[i].stake
    &&& forall|id: Seq<char>| #[trigger] m.contains_key(id) ==> exists|i: int| 0 <= i < roster.len() && roster[i].id@ == id
}

/// Admitted authorities have distinct ids, all of them keys of the admitted map.
pub proof fn lemma_admission_members(v: Seq<(Seq<char>, u64)>)
    requires
        admission(v) is Ok,
    ensures
        forall|i: int| 0 <= i < v.len() ==> #[trigger] admission(v)->Ok_0.0.contains_key(v[i].0),
        forall|a: int, b: int| 0 <= a < b < v.len() ==> #[trigger] v[a].0 != #[trigger] v[b].0,
    decreases v.len(),
{
    if v.len() > 0 {
        let d = v.drop_last();
        lemma_admission_members(d);
        let m = admission(d)->Ok_0.0;
        assert forall|i: int| 0 <= i < v.len() implies #[trigger] admission(v)->Ok_0.0.contains_key(v[i].0) by {
            if i < d.len() {
                assert(d[i] == v[i]);
                assert(m.contains_key(d[i].0));
            }
        }
        assert forall|a: int, b: int| 0 <= a < b < v.len() implies #[trigger] v[a].0 != #[trigger] v[b].0 by {
            assert(d[a] == v[a]);
            if b < d.len() {
                assert(d[b] == v[b]);
            } else {
                assert(m.contains_key(d[a].0));
            }
        }
    }
}

/// A member of the roster has a registered stake.
pub proof fn lemma_stake_lookup_member(roster: Seq<Authority>, i: int)
    requires
        0 <= i < roster.len(),
    ensures
        stake_lookup(roster, roster[i].id@) is Some,
    decreases roster.len(),
{
    if i > 0 && roster[0].id@ != roster[i].id@ {
        assert(roster.drop_first()[i - 1] == roster[i]);
        lemma_stake_lookup_member(roster.drop_first(), i - 1);
    }
}

/// Two valid committees whose rosters both match `m` have the same members (by id
/// text and stake) in the same order.
pub proof fn lemma_roster_determined(c1: Committee, c2: Committee, m: Map<Seq<char>, u64>)
    requires
        c1.valid(),
        c2.valid(),
        roster_matches(c1.roster(), m),
        roster_matches(c2.roster(), m),
    ensures
        authority_views(c1.roster()) == authority_views(c2.roster()),
{
    let r1 = c1.roster();
    let r2 = c2.roster();
    let ids1 = r1.map_values(|a: Authority| a.id@);
    let ids2 = r2.map_values(|a: Authority| a.id@);
    assert(strictly_ascending(ids1)) by {
        assert forall|i: int, j: int| 0 <= i < j < ids1.len() implies text_lt(#[trigger] ids1[i], #[trigger] ids1[j]) by {
            assert(text_lt(r1[i].id@, r1[j].id@));
        }
    }
    assert(strictly_ascending(ids2)) by {
        assert forall|i: int, j: int| 0 <= i < j < ids2.len() implies text_lt(#[trigger] ids2[i], #[trigger] ids2[j]) by {
            assert(text_lt(r2[i].id@, r2[j].id@));
        }
    }
    assert forall|x: Seq<char>| ids1.to_set().contains(x) <==> #[trigger] ids2.to_set().contains(x) by {
        if ids1.to_set().contains(x) {
            let i = choose|i: int| 0 <= i < ids1.len() && ids1[i] == x;
            assert(m.contains_key(r1[i].id@));
            let j = choose|j: int| 0 <= j < r2.len() && r2[j].id@ == x;
            assert(ids2[j] == x);
        }
        if ids2.to_set().contains(x) {
            let i = choose|i: int| 0 <= i < ids2.len() && ids2[i] == x;
            assert(m.contains_key(r2[i].id@));
            let j = choose|j: int| 0 <= j < r1.len() && r1[j].id@ == x;
            assert(ids1[j] == x);
        }
    }
    assert(ids1.to_set() =~= ids2.to_set());
    crate::lexical::lemma_ascending_unique(ids1, ids2);
    assert forall|i: int| 0 <= i < r1.len() implies #[trigger] authority_views(r1)[i] == authority_views(r2)[i] by {
        assert(ids1[i] == ids2[i]);
        assert(m.contains_key(r1[i].id@) && m[r1[i].id@] == r1[i].stake);
        assert(m.contains_key(r2[i].id@) && m[r2[i].id@] == r2[i].stake);
    }
    assert(authority_views(r1) =~= authority_views(r2));
}

/// The stake of a set of ids depends on the members only through their id texts and stakes.
pub proof fn lemma_stake_of_set_views(r1: Seq<Authority>, r2: Seq<Authority>, ids: Set<Seq<char>>)
    requires
        authority_views(r1) == authority_views(r2),
    ensures
        stake_of_set(r1, ids) == stake_of_set(r2, ids),
    decreases r1.len(),
{
    assert(authority_views(r1).len() == r1.len() && authority_views(r2).len() == r2.len());
    if r1.len() > 0 {
        assert(authority_views(r1.drop_last()) =~= authority_views(r1).drop_last());
        assert(authority_views(r2.drop_last()) =~= authority_views(r2).drop_last());
        assert(authority_views(r1)[r1.len() - 1] == authority_views(r2)[r2.len() - 1]);
        lemma_stake_of_set_views(r1.drop_last(), r2.drop_last(), ids);
    }
}

/// The registered stake of an id depends on the members only through their id texts and stakes.
pub proof fn lemma_stake_lookup_views(r1: Seq<Authority>, r2: Seq<Authority>, id: Seq<char>)
    requires
        authority_views(r1) == authority_views(r2),
    ensures
        stake_lookup(r1, id) == stake_lookup(r2, id),
    decreases r1.len(),
{
    assert(authority_views(r1).len() == r1.len() && authority_views(r2).len() == r2.len());
    if r1.len() > 0 {
        assert(authority_views(r1.drop_first()) =~= authority_views(r1).drop_first());
        assert(authority_views(r2.drop_first()) =~= authority_views(r2).drop_first());
        assert(authority_views(r1)[0] == authority_views(r2)[0]);
        lemma_stake_lookup_views(r1.drop_first(), r2.drop_first(), id);
    }
}

proof fn lemma_stake_total_insert(s: Seq<Authority>, k: int, a: Authority)
    requires
        0 <= k <= s.len(),
    ensures
        stake_total(s.insert(k, a)) == stake_total(s) + a.stake,
    decreases s.len(),
{
    if k == s.len() {
        assert(s.insert(k, a).drop_last() =~= s);
    } else {
        let t = s.insert(k, a);
        assert(t.drop_last() =~= s.drop_last().insert(k, a));
        lemma_stake_total_insert(s.drop_last(), k, a);
    }
}

proof fn lemma_admission_prefix_err(s: Seq<(Seq<char>, u64)>, k: int)
    requires
        0 <= k <= s.len(),
        admission(s.take(k)) is Err,
    ensures
        admission(s) == admission(s.take(k)),
    decreases s.len(),
{
    if k < s.len() {
        assert(s.drop_last().take(k) =~= s.take(k));
        lemma_admission_prefix_err(s.drop_last(), k);
    } else {
        assert(s.take(k) =~= s);
    }
}

/// Position of `id` among the members (ascending ids), or where it would be inserted.
fn locate_member(members: &Vec<Authority>, id: &str) -> (r: (bool, usize))
    requires
        ids_ascending(members@),
    ensures
        r.1 <= members@.len(),
        r.0 ==> r.1 < members@.len() && members@[r.1 as int].id@ == id@,
        !r.0 ==> forall|k: int| 0 <= k < members@.len() ==> #[trigger] members@[k].id@ != id@,
        !r.0 ==> forall|k: int| 0 <= k < r.1 ==> text_lt(#[trigger] members@[k].id@, id@),
        !r.0 ==> forall|k: int| r.1 <= k < members@.len() ==> text_lt(id@, #[trigger] members@[k].id@),
{
    let mut i: usize = 0;
    while i < members.len()
        invariant
            ids_ascending(members@),
            i <= members@.len(),
            forall|k: int| 0 <= k < i ==> text_lt(#[trigger] members@[k].id@, id@),
        decreases members@.len() - i,
    {
        let cur = members[i].id.0.as_str();
        let before = str_lt(cur, id);
        let after = str_lt(id, cur);
        if !before && !after {
            proof {
                if cur@ != id@ {
                    lemma_text_lt_total(cur@, id@);
                }
            }
            return (true, i);
        }
        if after {
            proof {
                assert forall|k: int| i <= k < members@.len() implies text_lt(id@, #[trigger] members@[k].id@) by {
                    if k > i {
                        lemma_text_lt_transitive(id@, members@[i as int].id@, members@[k].id@);
                    }
                }
                assert forall|k: int| 0 <= k < members@.len() implies #[trigger] members@[k].id@ != id@ by {
                    lemma_text_lt_irreflexive(id@);
                }
            }
            return (false, i);
        }
        i = i + 1;
    }
    proof {
        assert forall|k: int| 0 <= k < members@.len() implies #[trigger] members@[k].id@ != id@ by {
            lemma_text_lt_irreflexive(id@);
        }
    }
    (false, i)
}

impl Committee {
    /// Admits `authorities` in order; see `committee_outcome`.
    #[verifier::spinoff_prover]
    #[verifier::rlimit(30)]
    pub fn new(authorities: Vec<Authority>) -> (res: Result<Committee, CommitteeError>)
        ensures
            match committee_outcome(authority_views(authorities@)) {
                Err(f) => res is Err && res->Err_0@ == f,
                Ok((m, t)) => res is Ok && res->Ok_0.total() == t
                    && roster_matches(res->Ok_0.roster(), m),
            },
    {
        if authorities.len() == 0 {
            return Err(CommitteeError::Empty);
        }
        let ghost all = authority_views(authorities@);
        let mut members: Vec<Authority> = Vec::new();
        let mut total: u64 = 0;
        let n = authorities.len();
        let mut i: usize = 0;
        proof {
            assert(all.take(0) =~= Seq::<(Seq<char>, u64)>::empty());
        }
        while i < n
            invariant
                n == all.len(),
                all == authority_views(authorities@),
                n > 0,
                i <= n,
                admission(all.take(i as int)) is Ok,
                admission(all.take(i as int))->Ok_0.1 == total as nat,
                roster_matches(members@, admission(all.take(i as int))->Ok_0.0),
                ids_ascending(members@),
                forall|k: int| 0 <= k < members@.len() ==> #[trigger] members@[k].stake > 0,
                stake_total(members@) == total as nat,
                i > 0 ==> members@.len() > 0,
            decreases n - i,
        {
            let a = &authorities[i];
            let ghost m = admission(all.take(i as int))->Ok_0.0;
            proof {
                assert(all.take(i as int + 1).drop_last() =~= all.take(i as int));
                assert(all.take(i as int + 1).last() == all[i as int]);
                assert(all[i as int] == (a.id@, a.stake));
            }
            if a.stake == 0 {
                proof {
                    lemma_admission_prefix_err(all, i as int + 1);
                }
                return Err(CommitteeError::ZeroStake(a.id.0.clone()));
            }
            let (found, at) = locate_member(&members, a.id.0.as_str());
            if found {
                proof {
                    assert(m.contains_key(members@[at as int].id@));
                    lemma_admission_prefix_err(all, i as int + 1);
                }
                return Err(CommitteeError::Duplicate(a.id.0.clone()));
            }
            proof {
                if m.contains_key(a.id@) {
                    let k = choose|k: int| 0 <= k < members@.len() && members@[k].id@ == a.id@;
                    assert(members@[k].id@ != a.id@);
                }
            }
            let new_total = match total.checked_add(a.stake) {
                Some(t) => t,
                None => {
                    proof {
                        lemma_admission_prefix_err(all, i as int + 1);
                    }
                    return Err(CommitteeError::Overflow);
                },
            };
            let ghost old_members = members@;
            let entry = a.duplicate();
            members.insert(at, entry);
            proof {
                let m2 = m.insert(a.id@, a.stake);
                lemma_stake_total_insert(old_members, at as int, entry);
                assert(members@ =~= old_members.insert(at as int, entry));
                assert forall|p: int, q: int| 0 <= p < q < members@.len() implies text_lt(#[trigger] members@[p].id@, #[trigger] members@[q].id@) by {
                    if q < at {
                    } else if p < at && q == at {
                    } else if p < at {
                        assert(members@[q] == old_members[q - 1]);
                    } else if p == at {
                        assert(members@[q] == old_members[q - 1]);
                    } else {
                        assert(members@[p] == old_members[p - 1]);
                        assert(members@[q] == old_members[q - 1]);
                    }
                }
                assert forall|k: int| 0 <= k < members@.len() implies #[trigger] members@[k].stake > 0 by {
                    if k > at {
                        assert(members@[k] == old_members[k - 1]);
                    }
                }
                assert forall|k: int| 0 <= k < members@.len() implies #[trigger] m2.contains_key(members@[k].id@) && m2[members@[k].id@] == members@[k].stake by {
                    if k < at {
                        assert(members@[k] == old_members[k]);
                    } else if k > at {
                        assert(members@[k] == old_members[k - 1]);
                    }
                }
                assert forall|id: Seq<char>| #[trigger] m2.contains_key(id) implies exists|k: int| 0 <= k < members@.len() && members@[k].id@ == id by {
                    if id == a.id@ {
                        assert(members@[at as int].id@ == id);
                    } else {
                        assert(m.contains_key(id));
                        let k = choose|k: int| 0 <= k < old_members.len() && old_members[k].id@ == id;
                        if k < at {
                            assert(members@[k] == old_members[k]);
                        } else {
                            assert(members@[k + 1] == old_members[k]);
                        }
                    }
                }
            }
            total = new_total;
            i = i + 1;
        }
        proof {
            assert(all.take(n as int) =~= all);
        }
        Ok(Committee { members, total_stake: total })
    }

    /// The members in ascending id order.
    pub fn authorities(&self) -> (r: &[Authority])
        ensures
            r@ == self.roster(),
    {
        self.members.as_slice()
    }

    /// The stake of `id`, if it is a member.
    pub fn stake(&self, id: &AuthorityId) -> (r: Option<Stake>)
        ensures
            r == stake_lookup(self.roster(), id@),
    {
        let mut i: usize = 0;
        assert(self.members@.subrange(0, self.members@.len() as int) =~= self.members@);
        while i < self.members.len()
            invariant
                i <= self.members@.len(),
                stake_lookup(self.members@, id@) == stake_lookup(self.members@.subrange(i as int, self.members@.len() as int), id@),
            decreases self.members@.len() - i,
        {
            let ghost rest = self.members@.subrange(i as int, self.members@.len() as int);
            proof {
                assert(rest.drop_first() =~= self.members@.subrange(i as int + 1, self.members@.len() as int));
            }
            if self.members[i].id.0 == id.0 {
                return Some(self.members[i].stake);
            }
            i = i + 1;
        }
        None
    }

    /// Sum of all member stakes.
    pub fn total_stake(&self) -> (r: Stake)
        ensures
            r == self.total(),
    {
        self.total_stake
    }
}

/// Quorum threshold for total stake `t`: `floor(2t/3) + 1`.
pub open spec fn quorum_for(t: nat) -> nat {
    2 * t / 3 + 1
}

/// Largest Byzantine stake strictly below a third of `t`: `floor((t-1)/3)` (0 for `t = 0`).
pub open spec fn fault_bound_for(t: nat) -> nat {
    if t == 0 {
        0
    } else {
        ((t - 1) / 3) as nat
    }
}

/// The set of id texts of `ids`.
pub open spec fn id_set(ids: Seq<AuthorityId>) -> Set<Seq<char>> {
    id_texts(ids).to_set()
}

/// The id texts of `ids`, in order.
pub open spec fn id_texts(ids: Seq<AuthorityId>) -> Seq<Seq<char>> {
    ids.map_values(|a: AuthorityId| a@)
}

pub proof fn lemma_stake_of_set_le_total(s: Seq<Authority>, ids: Set<Seq<char>>)
    ensures
        stake_of_set(s, ids) <= stake_total(s),
    decreases s.len(),
{
    if s.len() > 0 {
        lemma_stake_of_set_le_total(s.drop_last(), ids);
    }
}

/// Inclusion-exclusion for member stake.
pub proof fn lemma_stake_of_set_union_intersect(s: Seq<Authority>, a: Set<Seq<char>>, b: Set<Seq<char>>)
    ensures
        stake_of_set(s, a.union(b)) + stake_of_set(s, a.intersect(b)) == stake_of_set(s, a) + stake_of_set(s, b),
    decreases s.len(),
{
    if s.len() > 0 {
        lemma_stake_of_set_union_intersect(s.drop_last(), a, b);
    }
}

/// Stake of the members in `a` is that of `a \ z` plus that of `a ∩ z`.
pub proof fn lemma_stake_of_set_split(s: Seq<Authority>, a: Set<Seq<char>>, z: Set<Seq<char>>)
    ensures
        stake_of_set(s, a) == stake_of_set(s, a.difference(z)) + stake_of_set(s, a.intersect(z)),
    decreases s.len(),
{
    if s.len() > 0 {
        lemma_stake_of_set_split(s.drop_last(), a, z);
    }
}

/// Monotonicity: a subset of ids never carries more stake.
pub proof fn lemma_stake_of_set_subset(s: Seq<Authority>, a: Set<Seq<char>>, b: Set<Seq<char>>)
    requires
        a.subset_of(b),
    ensures
        stake_of_set(s, a) <= stake_of_set(s, b),
    decreases s.len(),
{
    if s.len() > 0 {
        lemma_stake_of_set_subset(s.drop_last(), a, b);
    }
}

/// Positive stake of a set means some member of the roster lies in it.
pub proof fn lemma_positive_stake_has_member(s: Seq<Authority>, a: Set<Seq<char>>)
    requires
        stake_of_set(s, a) > 0,
    ensures
        exists|i: int| 0 <= i < s.len() && #[trigger] a.contains(s[i].id@),
    decreases s.len(),
{
    if s.len() > 0 {
        if a.contains(s.last().id@) {
            assert(a.contains(s[s.len() - 1].id@));
        } else {
            lemma_positive_stake_has_member(s.drop_last(), a);
            let i = choose|i: int| 0 <= i < s.drop_last().len() && #[trigger] a.contains(s.drop_last()[i].id@);
            assert(s[i] == s.drop_last()[i]);
        }
    }
}

pub(crate) fn contains_id(ids: &[AuthorityId], id: &String) -> (r: bool)
    ensures
        r == id_set(ids@).contains(id@),
{
    let mut i: usize = 0;
    while i < ids.len()
        invariant
            i <= ids@.len(),
            forall|k: int| 0 <= k < i ==> ids@[k]@ != id@,
        decreases ids@.len() - i,
    {
        if ids[i].0 == *id {
            proof {
                assert(id_texts(ids@)[i as int] == id@);
            }
            return true;
        }
        i = i + 1;
    }
    proof {
        if id_set(ids@).contains(id@) {
            let k = choose|k: int| 0 <= k < ids@.len() && #[trigger] id_texts(ids@)[k] == id@;
            assert(ids@[k]@ == id@);
        }
    }
    false
}

impl Committee {
    /// `floor(2T/3) + 1` for total stake `T`, computed without overflow.
    pub fn quorum_threshold(&self) -> (r: Stake)
        ensures
            r == quorum_for(self.total()),
    {
        let t = self.total_stake;
        let q = t / 3;
        let rem = t % 3;
        assert(2 * (t as int) / 3 == 2 * q + (rem * 2) / 3) by (nonlinear_arith)
            requires
                q == t / 3,
                rem == t % 3,
        ;
        q * 2 + (rem * 2) / 3 + 1
    }

    /// Maximum Byzantine stake satisfying the strict `< total/3` safety assumption.
    pub fn byzantine_safety_bound(&self) -> (r: Stake)
        ensures
            r == fault_bound_for(self.total()),
    {
        self.total_stake.saturating_sub(1) / 3
    }

    /// Stake of the distinct members named in `ids`; repeated and unknown ids add nothing.
    pub fn distinct_stake(&self, ids: &[AuthorityId]) -> (r: Stake)
        ensures
            r == stake_of_set(self.roster(), id_set(ids@)),
    {
        proof {
            use_type_invariant(self);
        }
        let ghost set = id_set(ids@);
        let mut sum: u64 = 0;
        let mut k: usize = 0;
        while k < self.members.len()
            invariant
                k <= self.members@.len(),
                self.valid(),
                set == id_set(ids@),
                sum == stake_of_set(self.members@.take(k as int), set),
            decreases self.members@.len() - k,
        {
            let ghost pre = self.members@.take(k as int + 1);
            proof {
                assert(pre.drop_last() =~= self.members@.take(k as int));
                assert(pre.last() == self.members@[k as int]);
                lemma_stake_of_set_le_total(pre, set);
                lemma_stake_total_prefix(self.members@, k as int + 1);
            }
            let cur = &self.members[k].id.0;
            assert(cur@ == self.members@[k as int].id@);
            let hit = contains_id(ids, cur);
            assert(hit == id_set(ids@).contains(cur@));
            proof {
                assert(stake_of_set(pre, set) == stake_of_set(self.members@.take(k as int), set)
                    + if set.contains(self.members@[k as int].id@) { self.members@[k as int].stake as nat } else { 0 });
                assert(hit == set.contains(self.members@[k as int].id@));
                assert(stake_total(self.members@) == self.total_stake);
            }
            if hit {
                sum = sum + self.members[k].stake;
            }
            k = k + 1;
        }
        proof {
            assert(self.members@.take(self.members@.len() as int) =~= self.members@);
        }
        sum
    }
}

proof fn lemma_stake_total_prefix(s: Seq<Authority>, k: int)
    requires
        0 <= k <= s.len(),
    ensures
        stake_total(s.take(k)) <= stake_total(s),
    decreases s.len(),
{
    if k < s.len() {
        assert(s.drop_last().take(k) =~= s.take(k));
        lemma_stake_total_prefix(s.drop_last(), k);
    } else {
        assert(s.take(k) =~= s);
    }
}

/// Two stake quorums of a committee share more than the Byzantine bound of stake.
pub proof fn quorum_intersection(c: Committee, a: Set<Seq<char>>, b: Set<Seq<char>>)
    requires
        c.valid(),
        stake_of_set(c.roster(), a) >= quorum_for(c.total()),
        stake_of_set(c.roster(), b) >= quorum_for(c.total()),
    ensures
        stake_of_set(c.roster(), a.intersect(b)) > fault_bound_for(c.total()),
{
    let s = c.roster();
    lemma_stake_of_set_union_intersect(s, a, b);
    lemma_stake_of_set_le_total(s, a.union(b));
    let t = c.total();
    assert(t >= 1) by {
        assert(s.len() > 0);
        assert(s[s.len() - 1].stake > 0);
        assert(s.drop_last().len() + 1 == s.len());
    }
    assert(2 * (2 * t / 3 + 1) - t > (t - 1) / 3) by (nonlinear_arith)
        requires
            t >= 1,
    ;
}

/// If the Byzantine members `z` hold at most the fault bound, two quorums share an
/// authority outside `z`.
pub proof fn quorum_intersection_contains_honest(
    c: Committee,
    a: Set<Seq<char>>,
    b: Set<Seq<char>>,
    z: Set<Seq<char>>,
)
    requires
        c.valid(),
        stake_of_set(c.roster(), a) >= quorum_for(c.total()),
        stake_of_set(c.roster(), b) >= quorum_for(c.total()),
        stake_of_set(c.roster(), z) <= fault_bound_for(c.total()),
    ensures
        exists|i: int| 0 <= i < c.roster().len()
            && #[trigger] a.intersect(b).difference(z).contains(c.roster()[i].id@),
{
    let s = c.roster();
    quorum_intersection(c, a, b);
    lemma_stake_of_set_split(s, a.intersect(b), z);
    lemma_stake_of_set_subset(s, a.intersect(b).intersect(z), z);
    assert(a.intersect(b).intersect(z).subset_of(z));
    lemma_positive_stake_has_member(s, a.intersect(b).difference(z));
}

/// A block's fields as texts and numbers.
pub struct BlockView {
    pub id: Seq<char>,
    pub author: Seq<char>,
    pub round: u32,
    pub slot: u32,
    pub variant: u32,
    pub parents: Seq<Seq<char>>,
}

/// A DAG block: author, wave position, variant (to tell equivocations apart), parent ids.
#[derive(Clone, Debug, PartialEq, Eq)]
pub struct Block {
    pub id: BlockId,
    pub author: AuthorityId,
    pub round: Round,
    pub slot: u32,
    pub variant: u32,
    pub parents: Vec<BlockId>,
}

impl View for Block {
    type V = BlockView;

    open spec fn view(&self) -> BlockView {
        BlockView {
            id: self.id@,
            author: self.author@,
            round: self.round,
            slot: self.slot,
            variant: self.variant,
            parents: texts(self.parents@),
        }
    }
}

/// The id of `b` is the canonical digest of its other fields, in lowercase hex.
pub open spec fn id_is_canonical(b: BlockView) -> bool {
    &&& b.id == block_id_text(b.author, b.round, b.slot, b.variant, b.parents)
    &&& digest_text_shaped(b.id)
}

/// A canonical block id is the text of a SHA-256 digest: 64 lowercase hexadecimal digits.
pub proof fn canonical_ids_are_digest_texts(b: BlockView)
    requires
        id_is_canonical(b),
    ensures
        b.id.len() == 64,
        forall|i: int| 0 <= i < b.id.len() ==> is_hex_digit(#[trigger] b.id[i]),
{
}

/// Copies of all strings of `v`.
pub fn copy_texts(v: &[String]) -> (r: Vec<String>)
    ensures
        texts(r@) == texts(v@),
{
    let mut r: Vec<String> = Vec::new();
    let mut i: usize = 0;
    while i < v.len()
        invariant
            i <= v@.len(),
            texts(r@) == texts(v@).subrange(0, i as int),
        decreases v@.len() - i,
    {
        let c = v[i].clone();
        assert(c@ == v@[i as int]@);
        let ghost before = r@;
        r.push(c);
        proof {
            assert(r@ == before.push(c));
            assert(texts(before).len() == before.len());
            assert(before.len() == i);
            assert forall|k: int| 0 <= k < r@.len() implies #[trigger] texts(r@)[k] == texts(v@).subrange(0, i as int + 1)[k] by {
                assert(texts(r@)[k] == r@[k]@);
                assert(texts(v@)[k] == v@[k]@);
                if k < i {
                    assert(texts(before)[k] == texts(v@).subrange(0, i as int)[k]);
                    assert(texts(before)[k] == before[k]@);
                }
            }
            assert(texts(r@) =~= texts(v@).subrange(0, i as int + 1));
        }
        i = i + 1;
    }
    proof {
        assert(texts(v@).subrange(0, v@.len() as int) =~= texts(v@));
    }
    r
}

impl Block {
    /// Builds a block with parents sorted and deduplicated and its canonical id.
    pub fn new(author: AuthorityId, round: Round, slot: u32, variant: u32, parents: Vec<BlockId>) -> (b: Block)
        ensures
            b@.author == author@,
            b@.round == round,
            b@.slot == slot,
            b@.variant == variant,
            strictly_ascending(b@.parents),
            b@.parents.to_set() == texts(parents@).to_set(),
            id_is_canonical(b@),
    {
        let parents = ascending_distinct(parents);
        let id = block_id_for(author.0.as_str(), round, slot, variant, parents.as_slice());
        Block { id, author, round, slot, variant, parents }
    }

    /// Whether the id is the canonical digest of the other fields.
    pub fn has_valid_id(&self) -> (r: bool)
        ensures
            r == id_is_canonical(self@),
    {
        let expected = block_id_for(self.author.0.as_str(), self.round, self.slot, self.variant, self.parents.as_slice());
        self.id == expected
    }

    /// A copy with equal fields.
    pub fn duplicate(&self) -> (r: Block)
        ensures
            r@ == self@,
    {
        Block {
            id: self.id.clone(),
            author: self.author.duplicate(),
            round: self.round,
            slot: self.slot,
            variant: self.variant,
            parents: copy_texts(self.parents.as_slice()),
        }
    }
}

/// Canonical id for a block with these fields (parents taken as given).
pub fn deterministic_block_id(author: &AuthorityId, round: Round, slot: u32, variant: u32, parents: &[BlockId]) -> (id: BlockId)
    ensures
        id@ == block_id_text(author@, round, slot, variant, texts(parents@)),
{
    block_id_for(author.0.as_str(), round, slot, variant, parents)
}

} // verus!
