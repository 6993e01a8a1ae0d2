//! Granular-SPH / CFD coupling seam: the integer and byte-level logic of the seam,
//! verified with Verus.

pub mod drag;
pub mod routing;
pub mod seam;
