#![allow(non_camel_case_types, non_snake_case)]
use vstd::prelude::*;

pub mod handlers;
pub mod helper;
pub mod hooks;
pub mod client;
pub mod client_handlers;
pub mod client_protocols;
pub mod common;
pub mod crypto;
pub mod crypto_provider;
pub mod intervals;
pub mod lagrange;
pub mod mailbox;
pub mod secret_share;
pub mod server;
pub mod shamir;
pub mod socket_server;

verus! {

} // verus!
