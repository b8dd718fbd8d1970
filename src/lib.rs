//! Transport and discovery core of a service-oriented RPC system: the Beepish
//! frame codec and connection multiplexer, and the decoding of signed service
//! announcements into a registry of callable actions.

use vstd::prelude::*;

pub mod announcement;
pub mod cache_file;
pub mod config;
pub mod decimal;
pub mod json;
pub mod mock;
pub mod mux;
pub mod proto;
pub mod registry;
pub mod service_info;
pub mod text;

verus! {

} // verus!
