//! The OCR languages this assistant supports.

use vstd::prelude::*;
use vstd::string::*;

verus! {

/// The recognition languages the OCR engine may be asked for.
#[derive(Debug, Clone, Copy, PartialEq, Eq, Structural)]
pub enum SupportedLanguages {
    ChiTra,
    ChiSim,
}

impl SupportedLanguages {
    /// The language tag handed to the OCR engine.
    pub fn language_code(&self) -> (r: String)
        ensures
            *self is ChiTra ==> r@ == "chi_tra"@,
            *self is ChiSim ==> r@ == "chi_sim"@,
    {
        match self {
            SupportedLanguages::ChiTra => String::from_str("chi_tra"),
            SupportedLanguages::ChiSim => String::from_str("chi_sim"),
        }
    }
}

} // verus!
