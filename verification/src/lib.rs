use vstd::prelude::*;

pub mod server;
pub mod text;
pub mod message_processing;
pub mod properties;
pub mod byte_reads;
pub mod simple_server;
pub mod unchecked_read_write_lock;

verus! {

} // verus!
