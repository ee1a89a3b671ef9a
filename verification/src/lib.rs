//! The decision layer and the token ledger of an AI4All node.
//!
//! A node advertises what it can serve, routes inference requests to the
//! peers best able to serve them, and keeps a signed account of the tokens
//! it earns and spends. This crate holds what the node decides and
//! accounts for. It never touches the network, the disk or the clock on its
//! own behalf, with three exceptions in [`tokens`]: a new wallet draws its
//! key, and a new receipt its identifier and its time, from the system.
//!
//! - [`tokens`]: receipts and the wallet.
//! - [`identity`]: the node's key pair and identifier.
//! - [`registry`]: the latest advertisement of every peer, and the ranking
//!   of the peers that serve a model.
//! - [`routing`]: which provider a request is sent to next.
//! - [`network`]: what to do on a command or an event of the transport.
//! - [`gpu`]: the machine's graphics processors, read from what the
//!   vendors' tools print.
//! - [`hexfmt`], [`text`]: hexadecimal and plain text.

pub mod gpu;
pub mod hexfmt;
pub mod identity;
pub mod network;
pub mod registry;
pub mod routing;
pub mod text;
pub mod tokens;
