//! A local-first synchronization engine: entities whose fields merge by a
//! last-writer-wins rule, transactions, live queries and the bookkeeping of
//! the replication protocol.
pub mod lww;
pub mod schema;
pub mod node;
pub mod transaction;
pub mod live_query;
pub mod replication;
pub mod model;
pub mod bootstrap;
