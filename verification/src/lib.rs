//! Verified core of a set of small network servers: an echo service, a
//! primality service, a running-mean price store, a chat room and a
//! key-value store answered over datagrams.

pub mod prime_time;
pub mod means_to_an_end;
pub mod errors;
pub mod tcp;
pub mod cli;
pub mod budget_chat;
pub mod unusual_database;
pub mod smoke_test;
