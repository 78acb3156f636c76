//! Login flow for a private ktra package registry.
//!
//! The library holds the decisions and the wire format of the flow: which
//! registry a login targets, the exact bytes of the request body and URL,
//! the parser for the server's JSON reply, and what to do with that reply.
//! Network traffic, workspace discovery and the credential store itself are
//! left to the surrounding binary, which hands plain values in and out.

pub mod flow;
pub mod response;
