use sph_cfd::drag::SeamMode;
use sph_cfd::seam::Phase;

#[test]
fn default_seam_mode_is_macdonald_without_faults() {
    let mode = SeamMode::default();
    assert!(mode.macdonald);
    assert!(!mode.omit_pressure_grad);
    assert!(!mode.corrupt_eps_power);
}

#[test]
fn phases_run_in_schedule_order() {
    let phases = [Phase::Export, Phase::TickCfd, Phase::Import, Phase::TickSph];
    let idx: Vec<u32> = phases.iter().map(|p| p.to_index()).collect();
    assert_eq!(idx, vec![0, 1, 2, 3]);
}

#[test]
fn phase_names() {
    assert_eq!(Phase::Export.name(), "Export");
    assert_eq!(Phase::TickCfd.name(), "TickCfd");
    assert_eq!(Phase::Import.name(), "Import");
    assert_eq!(Phase::TickSph.name(), "TickSph");
}
