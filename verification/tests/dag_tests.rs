use mysticeti_twin::dag::{Dag, DagError};
use mysticeti_twin::model::{deterministic_block_id, Authority, AuthorityId, Block, Committee};

fn single_committee() -> Committee {
    Committee::new(vec![Authority {
        id: AuthorityId("a".into()),
        stake: 1,
    }])
    .unwrap()
}

#[test]
fn invalid_parent_is_rejected() {
    let c = single_committee();
    let b = Block::new(AuthorityId("a".into()), 1, 0, 0, vec!["missing".into()]);
    assert!(matches!(
        Dag::build(&c, &[b]),
        Err(DagError::UnknownParent { .. })
    ));
}

#[test]
fn failed_insert_is_transactional_and_retry_succeeds() {
    let c = single_committee();
    let mut dag = Dag::build(&c, &[]).unwrap();
    let bad = Block::new(AuthorityId("a".into()), 1, 0, 0, vec!["missing".into()]);
    assert!(dag.insert(&c, bad).is_err());
    let proposal = Block::new(AuthorityId("a".into()), 0, 0, 0, vec![]);
    dag.insert(&c, proposal.clone()).unwrap();
    let retry = Block::new(AuthorityId("a".into()), 1, 0, 0, vec![proposal.id]);
    dag.insert(&c, retry).unwrap();
}

#[test]
fn wave_and_parent_canonicality_are_enforced() {
    let c = single_committee();
    let p = Block::new(AuthorityId("a".into()), 0, 0, 0, vec![]);
    let wrong_slot = Block::new(AuthorityId("a".into()), 4, 0, 0, vec![p.id.clone()]);
    assert!(matches!(
        Dag::build(&c, &[p.clone(), wrong_slot]),
        Err(DagError::InvalidWave { .. })
    ));
    let mut duplicate = Block::new(AuthorityId("a".into()), 1, 0, 0, vec![p.id.clone()]);
    duplicate.parents.push(p.id);
    duplicate.id = deterministic_block_id(
        &duplicate.author,
        duplicate.round,
        duplicate.slot,
        duplicate.variant,
        &duplicate.parents,
    );
    assert!(matches!(
        Dag::build(&c, &[duplicate]),
        Err(DagError::NonCanonicalParents(_))
    ));
}

#[test]
fn unrepresentable_high_slot_is_rejected() {
    let c = single_committee();
    let block = Block::new(AuthorityId("a".into()), u32::MAX, u32::MAX, 0, vec![]);
    assert!(matches!(
        Dag::build(&c, &[block]),
        Err(DagError::InvalidWave { .. })
    ));
}

#[test]
fn unknown_author_is_rejected_with_names() {
    let c = single_committee();
    let b = Block::new(AuthorityId("z".into()), 0, 0, 0, vec![]);
    let id = b.id.clone();
    match Dag::build(&c, &[b]) {
        Err(DagError::UnknownAuthor { block, author }) => {
            assert_eq!(block, id);
            assert_eq!(author, "z");
        }
        other => panic!("unexpected {other:?}"),
    }
}

#[test]
fn tampered_id_is_rejected() {
    let c = single_committee();
    let mut b = Block::new(AuthorityId("a".into()), 0, 0, 0, vec![]);
    b.id = "tampered".into();
    assert!(matches!(Dag::build(&c, &[b]), Err(DagError::InvalidBlockId(_))));
}

#[test]
fn parent_must_come_from_the_previous_round_of_the_slot() {
    let c = single_committee();
    let p = Block::new(AuthorityId("a".into()), 0, 0, 0, vec![]);
    let cert = Block::new(AuthorityId("a".into()), 2, 0, 0, vec![p.id.clone()]);
    assert!(matches!(
        Dag::build(&c, &[p, cert]),
        Err(DagError::InvalidParentPhase { .. })
    ));
}

#[test]
fn identity_collision_is_rejected() {
    let c = single_committee();
    let p = Block::new(AuthorityId("a".into()), 0, 0, 0, vec![]);
    let mut dag = Dag::build(&c, &[p.clone()]).unwrap();
    assert!(matches!(dag.insert(&c, p), Err(DagError::IdentityCollision(_))));
    assert_eq!(dag.blocks().len(), 1);
}

#[test]
fn build_admits_blocks_in_round_order_and_get_finds_them() {
    let c = single_committee();
    let p = Block::new(AuthorityId("a".into()), 0, 0, 0, vec![]);
    let s = Block::new(AuthorityId("a".into()), 1, 0, 0, vec![p.id.clone()]);
    let dag = Dag::build(&c, &[s.clone(), p.clone()]).unwrap();
    assert_eq!(dag.blocks().len(), 2);
    assert_eq!(dag.get(&s.id), Some(&s));
    assert_eq!(dag.get(&p.id), Some(&p));
    assert!(dag.get(&"absent".to_string()).is_none());
}

#[test]
fn dag_error_messages_match_their_variants() {
    let e = DagError::UnknownParent { block: "b".into(), parent: "p".into() };
    assert_eq!(e.message(), "block b has unknown parent p");
    let w = DagError::InvalidWave { block: "b".into(), round: 4, slot: 0 };
    assert_eq!(w.message(), "block b round 4 does not match slot 0 phase");
    let n = DagError::ParentNotEarlier { block: "b".into(), parent: "p".into() };
    assert_eq!(n.message(), "parent p is not earlier than block b");
}

#[test]
fn build_ignores_the_order_of_its_input() {
    let c = single_committee();
    let p = Block::new(AuthorityId("a".into()), 0, 0, 0, vec![]);
    let s = Block::new(AuthorityId("a".into()), 1, 0, 0, vec![p.id.clone()]);
    let q = Block::new(AuthorityId("a".into()), 3, 1, 0, vec![]);
    let forward = Dag::build(&c, &[p.clone(), s.clone(), q.clone()]).unwrap();
    let backward = Dag::build(&c, &[q, s, p]).unwrap();
    assert_eq!(forward.blocks(), backward.blocks());
    assert_eq!(forward.blocks().len(), 3);
}
