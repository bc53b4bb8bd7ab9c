use vstd::prelude::*;

pub mod engine;
pub mod error;
pub mod options;
pub mod cmd;
pub mod protocol;
pub mod rdb;
pub mod replication;
pub mod storage;
pub mod streams;

verus! {

} // verus!
