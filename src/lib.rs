//! Local developer-process management: command-line lexing, service
//! dependency resolution and supervision, port guarding and a restart ledger.

pub mod lexer;
pub mod text;
pub mod service;
pub mod resolver;
pub mod orchestrator;
pub mod guard;
pub mod restart;
pub mod cli;
pub mod update;
pub mod script;
