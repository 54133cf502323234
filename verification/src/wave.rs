use vstd::prelude::*;

verus! {

/// The three consecutive rounds `3s`, `3s+1`, `3s+2` of the wave for slot `s`.
#[derive(Clone, Copy, Debug, PartialEq, Eq)]
pub struct WaveRounds {
    pub proposal: u32,
    pub support: u32,
    pub certificate: u32,
}

/// The slot's certificate round `3s+2` does not fit in a `u32`.
#[derive(Clone, Copy, Debug, PartialEq, Eq)]
pub struct WaveRoundError {
    pub slot: u32,
}

/// Whether the whole wave of `slot` is representable as `u32` rounds.
pub open spec fn wave_representable(slot: u32) -> bool {
    3 * slot + 2 <= u32::MAX
}

/// Proposal round of `slot` (only meaningful when representable).
pub open spec fn proposal_round(slot: u32) -> int {
    3 * slot
}

/// The rounds of a representable wave.
pub open spec fn spec_wave_rounds(slot: u32) -> WaveRounds {
    WaveRounds {
        proposal: (3 * slot) as u32,
        support: (3 * slot + 1) as u32,
        certificate: (3 * slot + 2) as u32,
    }
}

/// Round layout of the three-round wave of `slot`.
pub fn wave_rounds(slot: u32) -> (res: Result<WaveRounds, WaveRoundError>)
    ensures
        res is Ok <==> wave_representable(slot),
        res matches Ok(r) ==> r == spec_wave_rounds(slot),
        res matches Err(e) ==> e == (WaveRoundError { slot }),
{
    let proposal = match slot.checked_mul(3) {
        Some(p) => p,
        None => return Err(WaveRoundError { slot }),
    };
    let support = match proposal.checked_add(1) {
        Some(s) => s,
        None => return Err(WaveRoundError { slot }),
    };
    let certificate = match proposal.checked_add(2) {
        Some(c) => c,
        None => return Err(WaveRoundError { slot }),
    };
    Ok(WaveRounds { proposal, support, certificate })
}

impl WaveRoundError {
    /// The error's message text.
    pub fn message(&self) -> (s: String)
        ensures
            s@ == "slot "@ + crate::render::decimal_text(self.slot as nat) + " exceeds the representable three-round horizon"@,
    {
        let mut s = String::from_str("slot ");
        s.append(crate::render::decimal(self.slot as u64).as_str());
        s.append(" exceeds the representable three-round horizon");
        s
    }
}

} // verus!
