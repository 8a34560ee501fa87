//! A DNS forwarding proxy's core: the wire codec for DNS messages, with compressed names
//! expanded; the matchers and the rule table that answer some queries locally; the decision,
//! for each datagram, to reply, forward or drop; and the admission gate that bounds how many
//! requests are handled at once.
pub mod admission;
pub mod config;
pub mod matcher;
pub mod present;
pub mod protocol;
pub mod proxy;
