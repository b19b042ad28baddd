use vstd::prelude::*;

pub mod eraftpb;
pub mod kit;
pub mod level_storage;
pub mod meta;
pub mod mpc;
pub mod msg;
pub mod server;
pub mod service;
