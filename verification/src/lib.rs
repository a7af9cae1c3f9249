//! arghda-core: a proof-workspace manager engine. It organises, lints and
//! reports on a prover workspace; it never proves anything itself.

pub mod diagnostic;
pub mod prover;
pub mod text;
pub mod reason;
pub mod graph;
pub mod graph_build;
pub mod dag;
pub mod order;
pub mod path;
pub mod timestamp;
pub mod event;
pub mod proven;
pub mod workspace;
pub mod lint;
pub mod dispatch;
pub mod unused;
pub mod groove;
pub mod config;
pub mod hash;
pub mod agda;
