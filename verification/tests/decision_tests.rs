use mysticeti_twin::dag::Dag;
use mysticeti_twin::decision::{commit_count, evaluate_all, evaluate_slot, selected_proposal, DecisionKind};
use mysticeti_twin::model::{Authority, AuthorityId, Block, Committee};

fn fixture(cert_authors: usize) -> (Committee, Dag) {
    let auth: Vec<_> = (0..4)
        .map(|i| Authority {
            id: AuthorityId(format!("a{i}")),
            stake: 1,
        })
        .collect();
    let c = Committee::new(auth).unwrap();
    let p = Block::new(AuthorityId("a0".into()), 0, 0, 0, vec![]);
    let supports: Vec<_> = (0..4)
        .map(|i| Block::new(AuthorityId(format!("a{i}")), 1, 0, 0, vec![p.id.clone()]))
        .collect();
    let parents: Vec<_> = supports.iter().map(|b| b.id.clone()).collect();
    let certs: Vec<_> = (0..cert_authors)
        .map(|i| Block::new(AuthorityId(format!("a{i}")), 2, 0, 0, parents.clone()))
        .collect();
    let blocks = std::iter::once(p)
        .chain(supports)
        .chain(certs)
        .collect::<Vec<_>>();
    let d = Dag::build(&c, &blocks).unwrap();
    (c, d)
}

#[test]
fn certificate_is_not_commit() {
    let (c, d) = fixture(1);
    assert_eq!(
        evaluate_slot(&c, &d, 0).unwrap()[0].kind,
        DecisionKind::NoDecision
    );
}

#[test]
fn happy_direct_commit() {
    let (c, d) = fixture(3);
    assert_eq!(
        evaluate_slot(&c, &d, 0).unwrap()[0].kind,
        DecisionKind::Commit
    );
}

#[test]
fn equivocation_does_not_multiply_stake() {
    let (c, mut d) = fixture(1);
    let p = d.blocks().iter().find(|b| b.round == 0).unwrap().id.clone();
    let e = Block::new(AuthorityId("a0".into()), 1, 0, 1, vec![p]);
    d.insert(&c, e).unwrap();
    assert_eq!(evaluate_slot(&c, &d, 0).unwrap()[0].support_stake, 4);
}

#[test]
fn malformed_dual_ancestry_selects_only_one_equivocation() {
    let authorities: Vec<_> = (0..4)
        .map(|i| Authority {
            id: AuthorityId(format!("a{i}")),
            stake: 1,
        })
        .collect();
    let c = Committee::new(authorities).unwrap();
    let p0 = Block::new(AuthorityId("a0".into()), 0, 0, 0, vec![]);
    let p1 = Block::new(AuthorityId("a0".into()), 0, 0, 1, vec![]);
    let both = vec![p0.id.clone(), p1.id.clone()];
    let mut supports: Vec<_> = (0..3)
        .map(|i| Block::new(AuthorityId(format!("a{i}")), 1, 0, 0, both.clone()))
        .collect();
    supports.push(Block::new(
        AuthorityId("a3".into()),
        1,
        0,
        0,
        vec![p0.id.clone()],
    ));
    supports.push(Block::new(
        AuthorityId("a3".into()),
        1,
        0,
        1,
        vec![p1.id.clone()],
    ));
    let support_ids = supports.iter().map(|b| b.id.clone()).collect::<Vec<_>>();
    let certs = (0..4)
        .map(|i| Block::new(AuthorityId(format!("a{i}")), 2, 0, 0, support_ids.clone()))
        .collect::<Vec<_>>();
    let blocks = vec![p0, p1]
        .into_iter()
        .chain(supports)
        .chain(certs)
        .collect::<Vec<_>>();
    let dag = Dag::build(&c, &blocks).unwrap();
    let decisions = evaluate_slot(&c, &dag, 0).unwrap();
    assert_eq!(
        decisions
            .iter()
            .filter(|d| d.kind == DecisionKind::Commit)
            .count(),
        1
    );
    assert!(decisions.iter().all(|d| d.support_authors.len() <= 4));
}

#[test]
fn empty_slot_is_an_explicit_skip() {
    let (c, d) = fixture(3);
    let ds = evaluate_slot(&c, &d, 1).unwrap();
    assert_eq!(ds.len(), 1);
    assert_eq!(ds[0].kind, DecisionKind::Skip);
    assert_eq!(ds[0].slot, 1);
    assert_eq!(ds[0].proposal_round, 3);
    assert!(ds[0].proposal_id.is_none());
    assert_eq!(ds[0].support_stake, 0);
    assert_eq!(ds[0].certificate_author_stake, 0);
}

#[test]
fn commit_evidence_lists_sorted_authors_and_stakes() {
    let (c, d) = fixture(3);
    let ds = evaluate_slot(&c, &d, 0).unwrap();
    let names: Vec<_> = ds[0].support_authors.iter().map(|a| a.0.clone()).collect();
    assert_eq!(names, vec!["a0", "a1", "a2", "a3"]);
    let certs: Vec<_> = ds[0].certificate_authors.iter().map(|a| a.0.clone()).collect();
    assert_eq!(certs, vec!["a0", "a1", "a2"]);
    assert_eq!(ds[0].support_stake, 4);
    assert_eq!(ds[0].certificate_author_stake, 3);
    assert_eq!(ds[0].proposal_round, 0);
}

#[test]
fn evaluate_all_covers_every_slot_in_order() {
    let (c, d) = fixture(3);
    let ds = evaluate_all(&c, &d, 3).unwrap();
    assert_eq!(ds.len(), 3);
    assert_eq!(ds.iter().map(|d| d.slot).collect::<Vec<_>>(), vec![0, 1, 2]);
    assert_eq!(commit_count(&ds), 1);
}

#[test]
fn support_selects_the_least_proposal_parent() {
    let (_, d) = fixture(3);
    let support = d.blocks().iter().find(|b| b.round == 1).unwrap().clone();
    let proposal = d.blocks().iter().find(|b| b.round == 0).unwrap().id.clone();
    assert_eq!(selected_proposal(&d, &support), Some(proposal));
    let proposal_block = d.blocks().iter().find(|b| b.round == 0).unwrap().clone();
    assert_eq!(selected_proposal(&d, &proposal_block), None);
}

#[test]
fn decisions_only_grow_as_blocks_arrive() {
    let auth: Vec<_> = (0..4)
        .map(|i| Authority {
            id: AuthorityId(format!("a{i}")),
            stake: 1,
        })
        .collect();
    let c = Committee::new(auth).unwrap();
    let p = Block::new(AuthorityId("a0".into()), 0, 0, 0, vec![]);
    let supports: Vec<_> = (0..4)
        .map(|i| Block::new(AuthorityId(format!("a{i}")), 1, 0, 0, vec![p.id.clone()]))
        .collect();
    let parents: Vec<_> = supports.iter().map(|b| b.id.clone()).collect();
    let mut blocks = vec![p];
    blocks.extend(supports[..2].iter().cloned());
    let mut dag = Dag::build(&c, &blocks).unwrap();
    let before = evaluate_slot(&c, &dag, 0).unwrap();
    assert_eq!(before[0].support_stake, 2);
    assert_eq!(before[0].kind, DecisionKind::NoDecision);
    dag.insert(&c, supports[2].clone()).unwrap();
    dag.insert(&c, supports[3].clone()).unwrap();
    for i in 0..3 {
        dag.insert(&c, Block::new(AuthorityId(format!("a{i}")), 2, 0, 0, parents.clone())).unwrap();
    }
    let after = evaluate_slot(&c, &dag, 0).unwrap();
    assert_eq!(after[0].proposal_id, before[0].proposal_id);
    assert_eq!(after[0].support_stake, 4);
    assert_eq!(after[0].certificate_author_stake, 3);
    assert_eq!(after[0].kind, DecisionKind::Commit);
    for a in &before[0].support_authors {
        assert!(after[0].support_authors.contains(a));
    }
}
