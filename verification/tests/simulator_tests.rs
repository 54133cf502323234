use mysticeti_twin::decision::DecisionKind;
use mysticeti_twin::simulator::{simulate, SimulationConfig, SimulationError};
use mysticeti_twin::trace::EventStatus;
use mysticeti_twin::wave::wave_rounds;
use rand::distr::Bernoulli;

#[test]
fn crashed_slot_zero_leader_produces_explicit_complete_skip_coverage() {
    let config = SimulationConfig {
        slots: 4,
        crash_authorities: vec![0],
        ..Default::default()
    };
    let trace = simulate(&config).unwrap();
    for slot in 0..config.slots {
        let proposals = trace.blocks.iter().filter(|b| {
            b.slot == slot && wave_rounds(slot).is_ok_and(|r| b.round == r.proposal)
        });
        let proposal_count = proposals.count();
        assert_eq!(
            trace.decisions.iter().filter(|d| d.slot == slot).count(),
            proposal_count.max(1)
        );
    }
    let slot_zero = trace.decisions.iter().find(|d| d.slot == 0).unwrap();
    assert_eq!(slot_zero.kind, DecisionKind::Skip);
    assert!(slot_zero.proposal_id.is_none());
}

#[test]
fn overflowing_round_and_time_horizons_are_rejected() {
    assert!(
        simulate(&SimulationConfig {
            slots: u32::MAX,
            ..Default::default()
        })
        .is_err()
    );
    assert!(
        simulate(&SimulationConfig {
            round_duration_ms: u64::MAX,
            ..Default::default()
        })
        .is_err()
    );
}

fn config_message(config: &SimulationConfig) -> String {
    match simulate(config) {
        Err(SimulationError::Config(m)) => m,
        other => panic!("unexpected {other:?}"),
    }
}

#[test]
fn configuration_errors_come_in_check_order() {
    assert_eq!(
        config_message(&SimulationConfig { slots: 0, ..Default::default() }),
        "slots must be positive"
    );
    assert_eq!(
        config_message(&SimulationConfig { packet_loss: None, ..Default::default() }),
        "packet loss must be in [0,1]"
    );
    assert_eq!(
        config_message(&SimulationConfig { latency_min_ms: 41, ..Default::default() }),
        "minimum latency exceeds maximum"
    );
    assert_eq!(
        config_message(&SimulationConfig { round_duration_ms: 0, ..Default::default() }),
        "round duration must be positive"
    );
    assert_eq!(
        config_message(&SimulationConfig { slots: u32::MAX, ..Default::default() }),
        "slot 4294967294 exceeds the representable three-round horizon"
    );
    assert_eq!(
        config_message(&SimulationConfig { round_duration_ms: u64::MAX, ..Default::default() }),
        "complete simulation time horizon overflows"
    );
    assert_eq!(
        config_message(&SimulationConfig { byzantine_authorities: vec![4], ..Default::default() }),
        "fault authority index is outside committee"
    );
    let e = simulate(&SimulationConfig { stakes: vec![1, 0], ..Default::default() }).unwrap_err();
    assert_eq!(e.message(), "authority authority-1 has zero stake");
    assert_eq!(
        SimulationError::Config("x".into()).message(),
        "invalid simulation configuration: x"
    );
}

#[test]
fn simulated_events_are_ordered_numbered_and_local_deliveries_are_immediate() {
    let trace = simulate(&SimulationConfig {
        packet_loss: Bernoulli::new(0.3).ok(),
        ..Default::default()
    })
    .unwrap();
    assert!(!trace.events.is_empty());
    for (i, e) in trace.events.iter().enumerate() {
        assert_eq!(e.sequence, i as u64);
        assert!(e.scheduled_at_ms <= e.outcome_at_ms);
        if e.sender == e.receiver {
            assert_eq!(e.outcome_at_ms, e.scheduled_at_ms);
            assert_eq!(e.status, EventStatus::Delivered);
        } else {
            let latency = e.outcome_at_ms - e.scheduled_at_ms;
            assert!((5..=40).contains(&latency));
        }
        assert!(trace.blocks.iter().any(|b| b.id == e.block_id && b.author == e.sender));
    }
    assert!(trace.events.windows(2).all(|w| w[0].outcome_at_ms <= w[1].outcome_at_ms));
    assert!(trace.blocks.iter().all(|b| b.has_valid_id()));
    assert_eq!(trace.committee.len(), 4);
    assert_eq!(trace.committee[2].id.0, "authority-2");
    assert_eq!(trace.seed, 7);
    assert_eq!(
        trace.evidence_labels,
        vec!["SIMULATED", "REPLAYABLE", "NOT_PRODUCTION_CONSENSUS"]
    );
}

#[test]
fn byzantine_leader_equivocates() {
    let trace = simulate(&SimulationConfig {
        byzantine_authorities: vec![0],
        ..Default::default()
    })
    .unwrap();
    let proposals = trace
        .blocks
        .iter()
        .filter(|b| b.slot == 0 && b.round == 0)
        .count();
    assert_eq!(proposals, 2);
    assert_eq!(trace.decisions.iter().filter(|d| d.slot == 0).count(), 2);
}

#[test]
fn honest_runs_pass_for_every_seed_and_loss() {
    for seed in 0..4u64 {
        for loss in [0.0, 0.05, 0.15, 0.30] {
            let trace = simulate(&SimulationConfig {
                seed,
                slots: 8,
                packet_loss: Bernoulli::new(loss).ok(),
                ..Default::default()
            })
            .unwrap();
            assert!(trace.invariants.all_passed);
            assert!(trace.invariants.assumptions.iter().all(|a| a.satisfied));
        }
    }
}

#[test]
fn default_run_delivers_every_broadcast_once_per_member() {
    let config = SimulationConfig::default();
    let t = simulate(&config).unwrap();
    assert_eq!(t.events.len(), t.blocks.len() * config.stakes.len());
    assert!(t.events.iter().all(|e| e.status == EventStatus::Delivered));
    for b in &t.blocks {
        let copies: Vec<_> = t.events.iter().filter(|e| e.block_id == b.id).collect();
        assert_eq!(copies.len(), config.stakes.len());
        assert!(copies.iter().all(|e| e.sender == b.author));
    }
}

#[test]
fn one_configuration_gives_one_trace() {
    let config = SimulationConfig {
        seed: 91,
        slots: 8,
        ..Default::default()
    };
    let a = simulate(&config).unwrap();
    let b = simulate(&config).unwrap();
    assert_eq!(a.blocks, b.blocks);
    assert_eq!(a.events, b.events);
    assert_eq!(a.decisions, b.decisions);
}
