use mysticeti_twin::{
    dag::Dag,
    decision::DecisionKind,
    model::{AuthorityId, Committee},
    simulate,
    trace::{audit_decisions, VerifyError, TRACE_SCHEMA_VERSION},
    verify_trace, SimulationConfig,
};
use rand::distr::Bernoulli;

#[test]
fn replay_is_deterministic() {
    let config = SimulationConfig::default();
    let a = simulate(&config).unwrap();
    let b = simulate(&config).unwrap();
    assert_eq!(a, b);
    assert_eq!(verify_trace(&a).unwrap(), a.decisions);
}

#[test]
fn schema_rejection() {
    let mut trace = simulate(&SimulationConfig::default()).unwrap();
    assert_eq!(trace.schema_version, TRACE_SCHEMA_VERSION);
    trace.schema_version = "future.v99".into();
    assert!(matches!(verify_trace(&trace), Err(VerifyError::Schema(_))));
}

#[test]
fn malformed_trace_rejection() {
    let mut trace = simulate(&SimulationConfig::default()).unwrap();
    trace.blocks[0].id = "tampered".into();
    assert!(matches!(
        verify_trace(&trace),
        Err(VerifyError::Dag(_) | VerifyError::Invariant(_))
    ));
}

#[test]
fn network_parameters_change_production_but_remain_reproducible() {
    let base = SimulationConfig {
        seed: 91,
        slots: 8,
        ..Default::default()
    };
    let a = simulate(&base).unwrap();
    assert_eq!(a, simulate(&base).unwrap());
    let slow = simulate(&SimulationConfig {
        round_duration_ms: 3,
        ..base.clone()
    })
    .unwrap();
    let lossy = simulate(&SimulationConfig {
        packet_loss: Bernoulli::new(0.8).ok(),
        ..base
    })
    .unwrap();
    assert_ne!(a.blocks, slow.blocks);
    assert_ne!(a.blocks, lossy.blocks);
    assert_ne!(a.decisions, lossy.decisions);
}

#[test]
fn unknown_nested_field_and_tampering_are_rejected() {
    let trace = simulate(&SimulationConfig::default()).unwrap();
    let mut tampered = trace;
    tampered.scope.push_str(" tampered");
    assert!(matches!(
        verify_trace(&tampered),
        Err(VerifyError::Provenance("scope"))
    ));
}

#[test]
fn independent_audit_rejects_self_consistent_but_dag_wrong_evidence() {
    let trace = simulate(&SimulationConfig::default()).unwrap();
    let committee = Committee::new(trace.committee.clone()).unwrap();
    let dag = Dag::build(&committee, &trace.blocks).unwrap();
    let mut decisions = trace.decisions.clone();
    let decision = decisions
        .iter_mut()
        .find(|d| d.proposal_id.is_some())
        .unwrap();
    decision.support_authors = vec![AuthorityId("authority-0".into())];
    decision.support_stake = committee.distinct_stake(&decision.support_authors);
    decision.certificate_authors = vec![AuthorityId("authority-0".into())];
    decision.certificate_author_stake = committee.distinct_stake(&decision.certificate_authors);
    decision.kind = DecisionKind::NoDecision;
    assert!(!audit_decisions(
        &committee,
        &dag,
        &decisions,
        trace.config.slots
    ));
}

#[test]
fn failed_byzantine_assumption_fails_report_and_strict_verify() {
    let trace = simulate(&SimulationConfig {
        stakes: vec![1, 1, 1],
        byzantine_authorities: vec![0],
        ..Default::default()
    })
    .unwrap();
    assert!(!trace.invariants.all_passed);
    assert!(matches!(
        verify_trace(&trace),
        Err(VerifyError::Invariant(_))
    ));
}

fn invariant_message(result: Result<Vec<mysticeti_twin::decision::Decision>, VerifyError>) -> String {
    match result {
        Err(VerifyError::Invariant(m)) => m,
        other => panic!("unexpected {other:?}"),
    }
}

#[test]
fn verification_reports_the_first_failing_check() {
    let trace = simulate(&SimulationConfig::default()).unwrap();
    let mut t = trace.clone();
    t.seed = 8;
    assert_eq!(invariant_message(verify_trace(&t)), "top-level seed differs from config seed");
    let mut t = trace.clone();
    t.config.slots = 0;
    assert_eq!(
        invariant_message(verify_trace(&t)),
        "invalid simulation configuration: slots must be positive"
    );
    let mut t = trace.clone();
    t.committee[1].stake = 2;
    assert_eq!(invariant_message(verify_trace(&t)), "config stakes differ from committee");
    let mut t = trace.clone();
    t.committee.clear();
    assert!(matches!(verify_trace(&t), Err(VerifyError::Committee(_))));
    let mut t = trace.clone();
    t.events[0].sequence = 5;
    assert_eq!(
        invariant_message(verify_trace(&t)),
        "invalid event reference, ordering, or fields"
    );
    let mut t = trace.clone();
    t.decisions[0].support_stake += 1;
    assert!(matches!(verify_trace(&t), Err(VerifyError::DecisionMismatch)));
    let mut t = trace.clone();
    t.invariants.checks[0].detail.push('!');
    assert_eq!(
        invariant_message(verify_trace(&t)),
        "recorded invariant report differs from replay"
    );
    let mut t = trace.clone();
    t.evidence_labels.pop();
    assert!(matches!(verify_trace(&t), Err(VerifyError::Provenance("labels"))));
}

#[test]
fn simulated_report_passes_for_honest_committee() {
    let trace = simulate(&SimulationConfig::default()).unwrap();
    assert!(trace.invariants.all_passed);
    assert!(trace.invariants.assumptions.iter().all(|a| a.satisfied));
    assert_eq!(trace.invariants.checks.len(), 5);
    assert_eq!(trace.invariants.checks[2].detail, "threshold=3");
    assert_eq!(
        trace.invariants.assumptions[1].detail,
        "configured_byzantine_stake=0, total_stake=4"
    );
}
