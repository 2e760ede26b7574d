//! Two-phase commit: the protocol engine of one coordinator, its participants
//! and its clients, the append-only log that each role keeps, and the auditor
//! that reads those logs once a run is over.
//!
//! Every role is a state machine from an event to the effects it asks for.
//! The caller owns the channels, the storage and the clock: it performs the
//! effects in the order given and hands back what happened next.
//!
//! - [`message`]: the values that travel between the roles.
//! - [`oplog`] and [`codec`]: a role's log, and its bytes on stable storage.
//! - [`coordinator`], [`participant`] and [`client`]: the three roles.
//! - [`checker`]: the auditor.
//! - [`system`], [`consistency`] and [`guarantees`]: a run as a whole, what holds
//!   of it at all times, and what it guarantees: that the logs agree, that
//!   the auditor finds nothing, that no transaction id is used twice, and
//!   that a transaction is committed only if every participant voted for it.

pub mod message;
pub mod oplog;
pub mod codec;
pub mod coordinator;
pub mod participant;
pub mod client;
pub mod checker;
pub mod system;
pub mod consistency;
pub mod guarantees;
