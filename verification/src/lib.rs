//! Verified core of a unified package-management layer over pacman,
//! the AUR and Nix: version ordering, candidate ranking, output parsers
//! and transaction planning.

pub mod text;
pub mod version;
pub mod model;
pub mod backend;
pub mod resolver;
pub mod parsers;
pub mod command;
pub mod interaction;
pub mod executor;
pub mod numbers;
pub mod alpm;
pub mod aur;
pub mod chain;
pub mod nix;
pub mod config;
pub mod cli;
pub mod session;
pub mod flow;
