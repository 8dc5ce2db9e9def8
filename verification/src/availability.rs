//! Why an item may be unavailable to the current user.

use vstd::prelude::*;

verus! {

/// The reason an availability check fails.
#[derive(Debug, Clone, Copy, PartialEq, Eq, Structural)]
pub enum UnavailabilityReason {
    Blacklisted,
    Embargo,
    NoData,
    NotWhitelisted,
}

/// Whether an item is available, and if not, why.
pub type AudioItemAvailability = Result<(), UnavailabilityReason>;

impl UnavailabilityReason {
    /// A human-readable account of the reason.
    pub fn describe(&self) -> (r: String)
        ensures
            *self is Blacklisted ==> r@ == "blacklist present and country on it"@,
            *self is Embargo ==> r@ == "available date is in the future"@,
            *self is NoData ==> r@ == "required data was not present"@,
            *self is NotWhitelisted ==> r@ == "whitelist present and country not on it"@,
    {
        match self {
            UnavailabilityReason::Blacklisted => "blacklist present and country on it".to_owned(),
            UnavailabilityReason::Embargo => "available date is in the future".to_owned(),
            UnavailabilityReason::NoData => "required data was not present".to_owned(),
            UnavailabilityReason::NotWhitelisted => "whitelist present and country not on it".to_owned(),
        }
    }
}

} // verus!
