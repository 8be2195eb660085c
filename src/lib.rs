//! A Kademlia-style distributed hash table node with a content-supplier
//! registry: identities and XOR distance, a bucketed routing table, the
//! connection registry, the supplier registry, the iterative lookup state and
//! the engine that ties them together behind a command/response boundary.
pub mod hex;
pub mod id;
pub mod closest;
pub mod addr;
pub mod routing;
pub mod supplier;
pub mod connection;
pub mod query;
pub mod engine;
