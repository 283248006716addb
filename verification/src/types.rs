use vstd::prelude::*;

verus! {

/// Distinct execution phases measured during speech bubble detection and decoding.
#[derive(Debug, Clone, Copy, PartialEq, Eq, Hash, Structural)]
pub enum Phase {
    ImagePreparation,
    Preprocessing,
    Inference,
    ComponentsScoring,
    ContoursSimplification,
    ResultPacking,
}

/// The phases in the order a detection run goes through them and reports them.
pub open spec fn spec_phase_order() -> Seq<Phase> {
    seq![
        Phase::ImagePreparation,
        Phase::Preprocessing,
        Phase::Inference,
        Phase::ComponentsScoring,
        Phase::ContoursSimplification,
        Phase::ResultPacking,
    ]
}

impl Phase {
    /// All phases, in the order a detection run goes through them and reports their timings.
    pub fn in_order() -> (phases: Vec<Phase>)
        ensures
            phases@ == spec_phase_order(),
    {
        let phases = vec![
            Phase::ImagePreparation,
            Phase::Preprocessing,
            Phase::Inference,
            Phase::ComponentsScoring,
            Phase::ContoursSimplification,
            Phase::ResultPacking,
        ];
        assert(phases@ =~= spec_phase_order());
        phases
    }
}

} // verus!
