//! Protocol engine of an HTTP(S) client: an incremental HTTP/1.1 response
//! decoder that streams decoded bytes to a sink, redirect handling under a
//! bounded budget, timeout labelling, and a TLS stream adapter built around
//! the rustls engine.
//!
//! All I/O lives outside this crate: the decoder and the query logic are
//! resumable state machines over plain byte buffers, fed by whatever
//! transport the caller drives.

pub mod bytes;
pub mod decoder;
pub mod errors;
pub mod query;
pub mod redirect;
pub mod tls;

use vstd::prelude::*;

verus! {

/// Bytes read from the transport in one bounded read.
pub const BUFFER_PAGE_SIZE: usize = 4096;

} // verus!
