//! Why a route or a plan could not be made.
use vstd::prelude::*;

verus! {

/// The kinds of failure.
#[derive(Debug, Clone, Copy, PartialEq, Eq, Structural)]
pub enum DeliveryFailure {
    /// A depot or delivery coordinate is not on the street map.
    BadCoord,
    /// No way leads from one stop to the next.
    NoRoute,
    /// Anything else.
    Other,
}

/// A failure with its kind.
#[derive(Debug, Clone, Copy, PartialEq, Eq, Structural)]
pub struct RouteError {
    pub kind: DeliveryFailure,
}

/// The sentence that explains a kind of failure.
pub open spec fn failure_text(kind: DeliveryFailure) -> Seq<char> {
    match kind {
        DeliveryFailure::BadCoord => "One or more depot/delivery coordinates are invalid."@,
        DeliveryFailure::NoRoute => "No route can be found to deliver all items."@,
        DeliveryFailure::Other => "An unknown error has occured."@,
    }
}

impl RouteError {
    pub fn new(kind: DeliveryFailure) -> (r: Self)
        ensures
            r.kind == kind,
    {
        RouteError { kind }
    }

    pub fn kind(&self) -> (r: DeliveryFailure)
        ensures
            r == self.kind,
    {
        self.kind
    }

    /// The sentence that explains this failure.
    pub fn message(&self) -> (r: &'static str)
        ensures
            r@ == failure_text(self.kind),
    {
        match self.kind {
            DeliveryFailure::BadCoord => "One or more depot/delivery coordinates are invalid.",
            DeliveryFailure::NoRoute => "No route can be found to deliver all items.",
            DeliveryFailure::Other => "An unknown error has occured.",
        }
    }
}

} // verus!
