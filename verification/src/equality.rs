use vstd::prelude::*;
use crate::dag::block_views;
use crate::lexical::texts;
use crate::decision::{Decision, decision_views};
use crate::model::{Authority, AuthorityId, Block, authority_views, id_texts};
use crate::trace::{Assumption, Event, InvariantCheck, InvariantReport, event_views};

verus! {

/// Whether two string lists have the same texts.
pub fn texts_equal(a: &[String], b: &[String]) -> (r: bool)
    ensures
        r == (texts(a@) == texts(b@)),
{
    if a.len() != b.len() {
        proof {
            assert(texts(a@).len() != texts(b@).len());
        }
        return false;
    }
    let mut i: usize = 0;
    while i < a.len()
        invariant
            a@.len() == b@.len(),
            i <= a@.len(),
            forall|k: int| 0 <= k < i ==> texts(a@)[k] == texts(b@)[k],
        decreases a@.len() - i,
    {
        if a[i] != b[i] {
            proof {
                assert(texts(a@)[i as int] != texts(b@)[i as int]);
            }
            return false;
        }
        i = i + 1;
    }
    proof {
        assert(texts(a@) =~= texts(b@));
    }
    true
}

/// Whether two id lists have the same texts.
pub fn ids_equal(a: &[AuthorityId], b: &[AuthorityId]) -> (r: bool)
    ensures
        r == (id_texts(a@) == id_texts(b@)),
{
    if a.len() != b.len() {
        proof {
            assert(id_texts(a@).len() != id_texts(b@).len());
        }
        return false;
    }
    let mut i: usize = 0;
    while i < a.len()
        invariant
            a@.len() == b@.len(),
            i <= a@.len(),
            forall|k: int| 0 <= k < i ==> id_texts(a@)[k] == id_texts(b@)[k],
        decreases a@.len() - i,
    {
        if a[i].0 != b[i].0 {
            proof {
                assert(id_texts(a@)[i as int] != id_texts(b@)[i as int]);
            }
            return false;
        }
        i = i + 1;
    }
    proof {
        assert(id_texts(a@) =~= id_texts(b@));
    }
    true
}

/// Whether two authority lists agree entry by entry.
pub fn authorities_equal(a: &[Authority], b: &[Authority]) -> (r: bool)
    ensures
        r == (authority_views(a@) == authority_views(b@)),
{
    if a.len() != b.len() {
        proof {
            assert(authority_views(a@).len() != authority_views(b@).len());
        }
        return false;
    }
    let mut i: usize = 0;
    while i < a.len()
        invariant
            a@.len() == b@.len(),
            i <= a@.len(),
            forall|k: int| 0 <= k < i ==> authority_views(a@)[k] == authority_views(b@)[k],
        decreases a@.len() - i,
    {
        if a[i].id.0 != b[i].id.0 || a[i].stake != b[i].stake {
            proof {
                assert(authority_views(a@)[i as int] != authority_views(b@)[i as int]);
            }
            return false;
        }
        i = i + 1;
    }
    proof {
        assert(authority_views(a@) =~= authority_views(b@));
    }
    true
}

/// Whether two blocks have equal fields.
pub fn block_equal(a: &Block, b: &Block) -> (r: bool)
    ensures
        r == (a@ == b@),
{
    let same = a.id == b.id && a.author.0 == b.author.0 && a.round == b.round && a.slot == b.slot
        && a.variant == b.variant && texts_equal(a.parents.as_slice(), b.parents.as_slice());
    proof {
        if a@ == b@ {
            assert(a@.parents == b@.parents);
        }
    }
    same
}

/// Whether two block lists agree block by block.
pub fn blocks_equal(a: &[Block], b: &[Block]) -> (r: bool)
    ensures
        r == (block_views(a@) == block_views(b@)),
{
    if a.len() != b.len() {
        proof {
            assert(block_views(a@).len() != block_views(b@).len());
        }
        return false;
    }
    let mut i: usize = 0;
    while i < a.len()
        invariant
            a@.len() == b@.len(),
            i <= a@.len(),
            forall|k: int| 0 <= k < i ==> block_views(a@)[k] == block_views(b@)[k],
        decreases a@.len() - i,
    {
        if !block_equal(&a[i], &b[i]) {
            proof {
                assert(block_views(a@)[i as int] != block_views(b@)[i as int]);
            }
            return false;
        }
        i = i + 1;
    }
    proof {
        assert(block_views(a@) =~= block_views(b@));
    }
    true
}

/// Whether two events have equal fields.
pub fn event_equal(a: &Event, b: &Event) -> (r: bool)
    ensures
        r == (a@ == b@),
{
    a.sequence == b.sequence && a.scheduled_at_ms == b.scheduled_at_ms && a.outcome_at_ms == b.outcome_at_ms
        && a.status == b.status && a.block_id == b.block_id && a.sender.0 == b.sender.0 && a.receiver.0 == b.receiver.0
}

/// Whether two event lists agree event by event.
pub fn events_equal(a: &[Event], b: &[Event]) -> (r: bool)
    ensures
        r == (event_views(a@) == event_views(b@)),
{
    if a.len() != b.len() {
        proof {
            assert(event_views(a@).len() != event_views(b@).len());
        }
        return false;
    }
    let mut i: usize = 0;
    while i < a.len()
        invariant
            a@.len() == b@.len(),
            i <= a@.len(),
            forall|k: int| 0 <= k < i ==> event_views(a@)[k] == event_views(b@)[k],
        decreases a@.len() - i,
    {
        if !event_equal(&a[i], &b[i]) {
            proof {
                assert(event_views(a@)[i as int] != event_views(b@)[i as int]);
            }
            return false;
        }
        i = i + 1;
    }
    proof {
        assert(event_views(a@) =~= event_views(b@));
    }
    true
}

/// Whether two decisions have equal fields, evidence labels included.
pub fn decision_equal(a: &Decision, b: &Decision) -> (r: bool)
    ensures
        r == (a@ == b@),
{
    let same_id = match (&a.proposal_id, &b.proposal_id) {
        (Some(x), Some(y)) => *x == *y,
        (None, None) => true,
        _ => false,
    };
    let same = a.slot == b.slot && same_id && a.proposal_round == b.proposal_round && a.kind == b.kind
        && a.support_stake == b.support_stake && a.certificate_author_stake == b.certificate_author_stake
        && ids_equal(a.support_authors.as_slice(), b.support_authors.as_slice())
        && ids_equal(a.certificate_authors.as_slice(), b.certificate_authors.as_slice())
        && texts_equal(a.evidence.as_slice(), b.evidence.as_slice());
    proof {
        if a@ == b@ {
            assert(a@.support_authors == b@.support_authors);
        }
    }
    same
}

/// Whether two decision lists agree decision by decision.
pub fn decisions_equal(a: &[Decision], b: &[Decision]) -> (r: bool)
    ensures
        r == (decision_views(a@) == decision_views(b@)),
{
    if a.len() != b.len() {
        proof {
            assert(decision_views(a@).len() != decision_views(b@).len());
        }
        return false;
    }
    let mut i: usize = 0;
    while i < a.len()
        invariant
            a@.len() == b@.len(),
            i <= a@.len(),
            forall|k: int| 0 <= k < i ==> decision_views(a@)[k] == decision_views(b@)[k],
        decreases a@.len() - i,
    {
        if !decision_equal(&a[i], &b[i]) {
            proof {
                assert(decision_views(a@)[i as int] != decision_views(b@)[i as int]);
            }
            return false;
        }
        i = i + 1;
    }
    proof {
        assert(decision_views(a@) =~= decision_views(b@));
    }
    true
}

/// Whether two check lists agree entry by entry.
fn checks_equal(a: &[InvariantCheck], b: &[InvariantCheck]) -> (r: bool)
    ensures
        r == (a@.map_values(|c: InvariantCheck| (c.name@, c.passed, c.detail@)) == b@.map_values(|c: InvariantCheck| (c.name@, c.passed, c.detail@))),
{
    let ghost va = a@.map_values(|c: InvariantCheck| (c.name@, c.passed, c.detail@));
    let ghost vb = b@.map_values(|c: InvariantCheck| (c.name@, c.passed, c.detail@));
    if a.len() != b.len() {
        proof {
            assert(va.len() != vb.len());
        }
        return false;
    }
    let mut i: usize = 0;
    while i < a.len()
        invariant
            va == a@.map_values(|c: InvariantCheck| (c.name@, c.passed, c.detail@)),
            vb == b@.map_values(|c: InvariantCheck| (c.name@, c.passed, c.detail@)),
            a@.len() == b@.len(),
            i <= a@.len(),
            forall|k: int| 0 <= k < i ==> va[k] == vb[k],
        decreases a@.len() - i,
    {
        if !(a[i].name == b[i].name && a[i].passed == b[i].passed && a[i].detail == b[i].detail) {
            proof {
                assert(va[i as int] != vb[i as int]);
            }
            return false;
        }
        i = i + 1;
    }
    proof {
        assert(va =~= vb);
    }
    true
}

/// Whether two assumption lists agree entry by entry.
fn assumptions_equal(a: &[Assumption], b: &[Assumption]) -> (r: bool)
    ensures
        r == (a@.map_values(|x: Assumption| (x.name@, x.satisfied, x.detail@)) == b@.map_values(|x: Assumption| (x.name@, x.satisfied, x.detail@))),
{
    let ghost va = a@.map_values(|x: Assumption| (x.name@, x.satisfied, x.detail@));
    let ghost vb = b@.map_values(|x: Assumption| (x.name@, x.satisfied, x.detail@));
    if a.len() != b.len() {
        proof {
            assert(va.len() != vb.len());
        }
        return false;
    }
    let mut i: usize = 0;
    while i < a.len()
        invariant
            va == a@.map_values(|x: Assumption| (x.name@, x.satisfied, x.detail@)),
            vb == b@.map_values(|x: Assumption| (x.name@, x.satisfied, x.detail@)),
            a@.len() == b@.len(),
            i <= a@.len(),
            forall|k: int| 0 <= k < i ==> va[k] == vb[k],
        decreases a@.len() - i,
    {
        if !(a[i].name == b[i].name && a[i].satisfied == b[i].satisfied && a[i].detail == b[i].detail) {
            proof {
                assert(va[i as int] != vb[i as int]);
            }
            return false;
        }
        i = i + 1;
    }
    proof {
        assert(va =~= vb);
    }
    true
}

/// Whether two invariant reports have equal checks, assumptions and verdict.
pub fn report_equal(a: &InvariantReport, b: &InvariantReport) -> (r: bool)
    ensures
        r == (a@ == b@),
{
    let same = a.all_passed == b.all_passed && checks_equal(a.checks.as_slice(), b.checks.as_slice())
        && assumptions_equal(a.assumptions.as_slice(), b.assumptions.as_slice());
    proof {
        if a@ == b@ {
            assert(a@.checks == b@.checks);
            assert(a@.assumptions == b@.assumptions);
        }
    }
    same
}

} // verus!
