//! An overlay resource store: payloads are appended to a host file as
//! self-describing records and later located and extracted by id.
#![allow(non_snake_case)]
#![allow(non_camel_case_types)]

pub mod error;
pub mod guard;
pub mod head;
pub mod laws;
pub mod search;
pub mod store;
pub mod stream;
pub mod text;
pub mod util;
pub mod validator;
pub mod version;
pub mod wire;
