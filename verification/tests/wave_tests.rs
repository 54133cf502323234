use mysticeti_twin::wave::{wave_rounds, WaveRoundError};

#[test]
fn boundary_is_checked() {
    let maximum_slot = (u32::MAX - 2) / 3;
    assert!(wave_rounds(maximum_slot).is_ok());
    assert!(wave_rounds(maximum_slot + 1).is_err());
}

#[test]
fn wave_rounds_are_three_consecutive_rounds() {
    let r = wave_rounds(5).unwrap();
    assert_eq!((r.proposal, r.support, r.certificate), (15, 16, 17));
    let e = wave_rounds(u32::MAX).unwrap_err();
    assert_eq!(e, WaveRoundError { slot: u32::MAX });
    assert_eq!(
        WaveRoundError { slot: 12 }.message(),
        "slot 12 exceeds the representable three-round horizon"
    );
}
