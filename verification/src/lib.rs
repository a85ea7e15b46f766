//! moo: git for the machine.
//!
//! The decisions of the `moo` tool, free of input and output: the machine
//! registry and its snapshots, the lifecycle of machines, the exec protocol,
//! the guest agent, golden images, the working-tree sync and the command line.
#![allow(unused_imports)]

pub mod archive;
pub mod bytes;
pub mod cli;
pub mod config;
pub mod digest;
pub mod dirs;
pub mod git;
pub mod guest;
pub mod image;
pub mod json;
pub mod keys;
pub mod laws;
pub mod lifecycle;
pub mod names;
pub mod network;
pub mod paths;
pub mod ports;
pub mod proto;
pub mod seqs;
pub mod shell;
pub mod shim;
pub mod spike;
pub mod store;
pub mod sync;
pub mod text;
pub mod vmm;
