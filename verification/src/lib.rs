//! vpnmux: keeps a chosen set of network providers working side by side.

pub mod cli;
pub mod coexistence;
pub mod daemon;
pub mod dns;
pub mod fsutil;
pub mod ip;
pub mod json;
pub mod log;
pub mod mullvad;
pub mod nft;
pub mod number;
pub mod paths;
pub mod provider;
pub mod reconcile;
pub mod resolver;
pub mod route;
pub mod runner;
pub mod state;
pub mod sys;
pub mod tailscale;
pub mod text;
pub mod types;
