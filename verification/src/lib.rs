//! A JavaScript package manager's core: how dependencies are resolved into a lockfile and what is
//! done with it afterwards.
pub mod bag;
pub mod dict;
pub mod document;
pub mod edit;
pub mod error;
pub mod gc;
pub mod graph;
pub mod impure;
pub mod install;
pub mod json;
pub mod link;
pub mod lock;
pub mod logging;
pub mod manifest;
pub mod nix;
pub mod pnpm;
pub mod registry;
pub mod resolve;
pub mod run;
pub mod summary;
pub mod text;
pub mod time;
pub mod trust;
pub mod update;
pub mod util;
pub mod version;
pub mod why;
pub mod workspace;
