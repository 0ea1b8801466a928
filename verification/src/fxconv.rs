//! Which sides of a quote are converted, and in which order.
use vstd::prelude::*;

verus! {

/// The choice of sides for the output.
#[derive(PartialEq, Eq, Clone, Copy, Debug, Structural)]
pub enum AskBidOption {
    AskOnly,
    AskFirst,
    BidOnly,
    BidFirst,
}

/// One side of a quote.
#[derive(PartialEq, Eq, Clone, Copy, Debug, Structural)]
pub enum AskBid {
    Ask,
    Bid,
}

} // verus!
