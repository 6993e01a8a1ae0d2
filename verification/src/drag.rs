use vstd::prelude::*;

verus! {

/// Which interphase closure the seam assembles, and whether to inject a fault for
/// negative controls.
#[derive(Clone, Copy, Debug)]
pub struct SeamMode {
    /// `true` selects the MacDonald (1979) closure; `false` selects Ergun (1952).
    pub macdonald: bool,
    /// Drop the pressure-gradient force.
    pub omit_pressure_grad: bool,
    /// Inject the eps^2-instead-of-eps^3 force-reduction fault.
    pub corrupt_eps_power: bool,
}

impl Default for SeamMode {
    /// The production seam: MacDonald closure, pressure gradient kept, no fault.
    fn default() -> (mode: Self)
        ensures
            mode.macdonald,
            !mode.omit_pressure_grad,
            !mode.corrupt_eps_power,
    {
        SeamMode { macdonald: true, omit_pressure_grad: false, corrupt_eps_power: false }
    }
}

} // verus!
