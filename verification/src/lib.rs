//! Internal rate of return for dated payments.

pub mod arithmetic;
pub mod arithmetic_laws;
pub mod binding;
pub mod binding_laws;
pub mod cash_flow;
pub mod date_laws;
pub mod denomination_laws;
pub mod descartes;
pub mod double;
pub mod enumeration_laws;
pub mod flow;
pub mod grid_laws;
pub mod growth;
pub mod host;
pub mod integers;
pub mod log_rate;
pub mod name_laws;
pub mod netted;
pub mod netted_laws;
pub mod optimize;
pub mod outcome_laws;
pub mod payment_laws;
pub mod payments;
pub mod root_bound;
pub mod rounding;
pub mod rounding_laws;
pub mod scaling_laws;
pub mod search;
pub mod sign_laws;
pub mod size_laws;
pub mod sorting;
pub mod value_laws;
pub mod xirr;
pub mod xirr_laws;
