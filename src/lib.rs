//! The client core of a federated, hierarchical name resolver.
//!
//! - `path`: canonical, escape-aware paths and their algebra.
//! - `protocol`: the operations, their replies, and referrals.
//! - `router`: the referral cache, and the routing of a batch by longest
//!   owning referral.
//! - `resolver`: the multiplexer that plans each round of a send, takes in
//!   the replies, follows referrals to a bounded depth and puts the final
//!   replies in the order of the batch; and the checks of the replies that
//!   the client operations expect.

pub mod path;
pub mod protocol;
pub mod resolver;
pub mod router;
