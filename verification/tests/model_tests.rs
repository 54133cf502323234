use mysticeti_twin::model::{deterministic_block_id, Authority, AuthorityId, Block, Committee, CommitteeError};

#[test]
fn thresholds_are_exact() {
    let c = Committee::new(vec![Authority {
        id: AuthorityId("a".into()),
        stake: 10,
    }])
    .unwrap();
    assert_eq!(c.quorum_threshold(), 7);
    assert_eq!(c.byzantine_safety_bound(), 3);
}

#[test]
fn weighted_quorum_deduplicates() {
    let c = Committee::new(vec![
        Authority {
            id: AuthorityId("a".into()),
            stake: 7,
        },
        Authority {
            id: AuthorityId("b".into()),
            stake: 3,
        },
    ])
    .unwrap();
    let a = AuthorityId("a".into());
    assert_eq!(c.distinct_stake(&[a.clone(), a.clone()]), 7);
    assert!(c.distinct_stake(&[a.clone()]) >= c.quorum_threshold());
}

fn authority(name: &str, stake: u64) -> Authority {
    Authority { id: AuthorityId(name.into()), stake }
}

#[test]
fn committee_errors_come_in_order() {
    assert_eq!(Committee::new(vec![]).unwrap_err(), CommitteeError::Empty);
    assert_eq!(
        Committee::new(vec![authority("a", 1), authority("b", 0)]).unwrap_err(),
        CommitteeError::ZeroStake("b".into())
    );
    assert_eq!(
        Committee::new(vec![authority("a", 1), authority("a", 2)]).unwrap_err(),
        CommitteeError::Duplicate("a".into())
    );
    assert_eq!(
        Committee::new(vec![authority("a", u64::MAX), authority("b", 1)]).unwrap_err(),
        CommitteeError::Overflow
    );
    assert_eq!(CommitteeError::ZeroStake("b".into()).message(), "authority b has zero stake");
    assert_eq!(CommitteeError::Duplicate("a".into()).message(), "duplicate authority a");
    assert_eq!(CommitteeError::Empty.message(), "committee must not be empty");
    assert_eq!(CommitteeError::Overflow.message(), "total stake overflow");
}

#[test]
fn committee_is_sorted_and_reports_stakes() {
    let c = Committee::new(vec![authority("c", 2), authority("a", 5), authority("b", 3)]).unwrap();
    let ids: Vec<_> = c.authorities().iter().map(|a| a.id.0.clone()).collect();
    assert_eq!(ids, vec!["a", "b", "c"]);
    assert_eq!(c.total_stake(), 10);
    assert_eq!(c.stake(&AuthorityId("b".into())), Some(3));
    assert_eq!(c.stake(&AuthorityId("z".into())), None);
    assert_eq!(c.quorum_threshold(), 7);
    assert_eq!(c.byzantine_safety_bound(), 3);
    let unknown = AuthorityId("z".into());
    assert_eq!(c.distinct_stake(&[unknown, AuthorityId("c".into())]), 2);
}

#[test]
fn quorums_of_a_weighted_committee_overlap_beyond_the_fault_bound() {
    let weights = [5u64, 3, 2, 1, 1];
    let c = Committee::new(
        weights.iter().enumerate().map(|(i, w)| authority(&format!("a{i}"), *w)).collect(),
    )
    .unwrap();
    let q = c.quorum_threshold();
    assert_eq!(q, 9);
    let left = [AuthorityId("a0".into()), AuthorityId("a1".into()), AuthorityId("a2".into())];
    let right = [
        AuthorityId("a0".into()),
        AuthorityId("a1".into()),
        AuthorityId("a3".into()),
        AuthorityId("a4".into()),
    ];
    assert!(c.distinct_stake(&left) >= q);
    assert!(c.distinct_stake(&right) >= q);
    let both = [AuthorityId("a0".into()), AuthorityId("a1".into())];
    assert!(c.distinct_stake(&both) > c.byzantine_safety_bound());
}

#[test]
fn block_ids_are_canonical_and_parents_sorted() {
    let author = AuthorityId("a".into());
    let b = Block::new(author.clone(), 1, 0, 0, vec!["y".into(), "x".into(), "y".into()]);
    assert_eq!(b.parents, vec!["x".to_string(), "y".to_string()]);
    assert!(b.has_valid_id());
    assert_eq!(b.id, deterministic_block_id(&author, 1, 0, 0, &b.parents));
    assert_eq!(b.id.len(), 64);
    assert!(b.id.chars().all(|ch| ch.is_ascii_hexdigit() && !ch.is_ascii_uppercase()));
    let other = Block::new(author.clone(), 1, 0, 1, b.parents.clone());
    assert_ne!(b.id, other.id);
    let mut tampered = b.clone();
    tampered.round = 2;
    assert!(!tampered.has_valid_id());
}

#[test]
fn canonical_ids_are_sixty_four_lowercase_hex_digits() {
    let b = mysticeti_twin::model::Block::new(
        mysticeti_twin::model::AuthorityId("authority-0".into()),
        0,
        0,
        0,
        vec![],
    );
    assert_eq!(b.id.len(), 64);
    assert!(b.id.chars().all(|c| c.is_ascii_digit() || ('a'..='f').contains(&c)));
    assert!(b.has_valid_id());
    let mut tampered = b.clone();
    tampered.id = "tampered".into();
    assert!(!tampered.has_valid_id());
}
