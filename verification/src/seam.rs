//! The phases of the standard coupled schedule on the parent App.

use vstd::prelude::*;

verus! {

/// One phase of the parent schedule: export SPH kinematics, tick the CFD
/// sub-App, import the fluid forces, tick the SPH sub-App.
#[derive(Clone, Copy, Debug, PartialEq, Eq)]
pub enum Phase {
    Export,
    TickCfd,
    Import,
    TickSph,
}

impl Phase {
    /// The position of the phase in the schedule.
    pub open spec fn index_spec(self) -> u32 {
        match self {
            Phase::Export => 0,
            Phase::TickCfd => 1,
            Phase::Import => 2,
            Phase::TickSph => 3,
        }
    }

    /// The numeric ordering index by which the scheduler runs the phases.
    pub fn to_index(&self) -> (index: u32)
        ensures
            index == self.index_spec(),
    {
        match self {
            Phase::Export => 0,
            Phase::TickCfd => 1,
            Phase::Import => 2,
            Phase::TickSph => 3,
        }
    }

    /// The human-readable name of the phase.
    pub fn name(&self) -> (name: &'static str)
        ensures
            match self {
                Phase::Export => name@ == "Export"@,
                Phase::TickCfd => name@ == "TickCfd"@,
                Phase::Import => name@ == "Import"@,
                Phase::TickSph => name@ == "TickSph"@,
            },
    {
        match self {
            Phase::Export => "Export",
            Phase::TickCfd => "TickCfd",
            Phase::Import => "Import",
            Phase::TickSph => "TickSph",
        }
    }
}

/// The schedule runs export, then the CFD tick, then import, then the SPH tick;
/// and no two phases share an index.
pub proof fn lemma_phase_order(a: Phase, b: Phase)
    ensures
        Phase::Export.index_spec() < Phase::TickCfd.index_spec(),
        Phase::TickCfd.index_spec() < Phase::Import.index_spec(),
        Phase::Import.index_spec() < Phase::TickSph.index_spec(),
        a.index_spec() == b.index_spec() ==> a == b,
{
}

} // verus!
