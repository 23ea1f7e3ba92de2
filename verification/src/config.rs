//! The settings of the input method that hold no floating-point values.
use vstd::prelude::*;

verus! {

/// Whether the converter learns from the candidates the user picks.
#[derive(Debug, Clone)]
pub struct LearningConfig {
    pub enabled: bool,
}

impl Default for LearningConfig {
    /// Learning is on unless the user turns it off.
    fn default() -> (r: Self)
        ensures
            r.enabled,
    {
        LearningConfig { enabled: true }
    }
}

/// Whether predictive conversion is offered.
#[derive(Debug, Clone)]
pub struct PredictionConfig {
    pub enabled: bool,
}

impl Default for PredictionConfig {
    /// Prediction is on unless the user turns it off.
    fn default() -> (r: Self)
        ensures
            r.enabled,
    {
        PredictionConfig { enabled: true }
    }
}

/// The settings of the neural conversion engine: whether it is used, the
/// user profile it is given, and the backend it runs on.
#[derive(Debug, Clone)]
pub struct ZenzaiConfig {
    pub enable: bool,
    pub profile: String,
    pub backend: String,
}

} // verus!
