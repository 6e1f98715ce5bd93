//! Transaction-execution core of a decentralized logistics marketplace.
//!
//! Clients post packages, carriers bid on them with fee proposals, and a
//! settlement layer atomically moves funds and package state through pickup,
//! transit, and delivery.  The crate is organised as three cooperating state
//! machines plus the ledger they draw on:
//!
//! * [`types`] — the entity model: packages, manifests, proposals and their
//!   status enums.
//! * [`ledger`] — an in-memory account ledger offering the reserve /
//!   unreserve / transfer primitives the settlement layer consumes.
//! * [`package`] — the package lifecycle manager.
//! * [`carrier`] — the proposal (bidding) manager, including fee computation.
//! * [`settlement`] — the orchestrator composing the managers and the ledger
//!   into atomic cross-entity operations, and the periodic sweeper that
//!   clears concluded records.

pub mod carrier;
pub mod ledger;
pub mod package;
pub mod settlement;
pub mod types;
