//! A process-local RPC bus for editor plugins: a broker that routes calls,
//! streaming updates and cancellations between peers, a length-prefixed frame
//! codec, a caller-side handle, and a fuzzy subsequence matcher used by
//! completion plugins.

pub mod broker;
pub mod codec;
pub mod connection;
pub mod handle;
pub mod rpc;
pub mod subsequence_match;
