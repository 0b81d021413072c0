//! TLS stream adapter around the rustls engine.
//!
//! The engine encrypts and decrypts synchronously; everything asynchronous
//! (the transport reads and writes that carry the records) stays with the
//! caller. This module owns the engine, validates the server name, turns
//! handshake state into explicit actions for the caller to perform, and
//! converts between plaintext and ciphertext one step at a time. Every
//! call into rustls goes through a trusted wrapper below; the bookkeeping
//! around them is verified.

use vstd::prelude::*;
use vstd::string::StringSliceAdditionalSpecFns;

use crate::errors::{CabotError, IoKind, SpecCabotError};

verus! {

#[verifier::external_type_specification]
#[verifier::external_body]
pub struct ExClientSession(rustls::ClientSession);

#[verifier::external_type_specification]
#[verifier::external_body]
pub struct ExTLSError(rustls::TLSError);

/// Whether webpki accepts the byte string as a TLS server name. The answer
/// depends on the bytes alone.
pub uninterp spec fn dns_name_ok(host: Seq<u8>) -> bool;

/// Relies on `webpki::DNSNameRef::try_from_ascii_str` for server-name
/// validation, and on `rustls::ClientConfig::new`,
/// `ClientConfig::add_server_trust_anchors` (with the
/// `webpki_roots::TLS_SERVER_ROOTS` anchor set) and
/// `rustls::ClientSession::new` to set up a client session for `host`.
/// A session comes back exactly when the name is valid.
#[verifier::external_body]
fn new_client_session(host: &str) -> (r: Option<rustls::ClientSession>)
    ensures
        r is Some <==> dns_name_ok(host.spec_bytes()),
{
    let mut config = rustls::ClientConfig::new();
    config.root_store.add_server_trust_anchors(&webpki_roots::TLS_SERVER_ROOTS);
    let config = std::sync::Arc::new(config);
    match webpki::DNSNameRef::try_from_ascii_str(host) {
        Ok(name) => Some(rustls::ClientSession::new(&config, name)),
        Err(_) => None,
    }
}

/// Relies on `rustls::Session::wants_write`: the engine has TLS records
/// waiting to go out.
#[verifier::external_body]
fn session_wants_write(s: &rustls::ClientSession) -> bool {
    rustls::Session::wants_write(s)
}

/// Relies on `rustls::Session::is_handshaking`.
#[verifier::external_body]
fn session_is_handshaking(s: &rustls::ClientSession) -> bool {
    rustls::Session::is_handshaking(s)
}

/// Relies on `rustls::Session::write_tls`, writing into a fresh vector
/// (writes to a `Vec` cannot fail): the pending outgoing TLS records.
#[verifier::external_body]
fn session_take_tls_output(s: &mut rustls::ClientSession) -> Vec<u8> {
    let mut buf: Vec<u8> = Vec::new();
    let _ = rustls::Session::write_tls(s, &mut buf);
    buf
}

/// Relies on `rustls::Session::read_tls`, reading from the given slice: it
/// consumes at most the slice, buffering the ciphertext inside the engine.
#[verifier::external_body]
fn session_feed_tls_input(s: &mut rustls::ClientSession, data: &[u8]) -> (r: Result<
    usize,
    CabotError,
>)
    ensures
        r matches Ok(n) ==> n <= data@.len(),
{
    let mut rd: &[u8] = data;
    match rustls::Session::read_tls(s, &mut rd) {
        Ok(n) => Ok(n),
        Err(_) => Err(CabotError::Io(IoKind::Transport)),
    }
}

/// Relies on `rustls::Session::process_new_packets`: decrypts and
/// validates whatever ciphertext the engine holds.
#[verifier::external_body]
fn session_process_packets(s: &mut rustls::ClientSession) -> Result<(), rustls::TLSError> {
    rustls::Session::process_new_packets(s)
}

/// Relies on `std::io::Read::read` on `rustls::ClientSession`: available
/// decrypted plaintext, at most `max` bytes of it.
#[verifier::external_body]
fn session_read_plaintext(s: &mut rustls::ClientSession, max: usize) -> (r: Result<
    Vec<u8>,
    CabotError,
>)
    ensures
        r matches Ok(v) ==> v@.len() <= max,
{
    let mut buf: Vec<u8> = vec![0u8; max];
    match std::io::Read::read(s, &mut buf[..]) {
        Ok(n) => {
            buf.truncate(n);
            Ok(buf)
        },
        Err(e) => {
            if e.kind() == std::io::ErrorKind::ConnectionAborted {
                Ok(Vec::new())
            } else {
                Err(CabotError::Io(IoKind::Transport))
            }
        },
    }
}

/// Relies on `std::io::Write::write_all` on `rustls::ClientSession`: hands
/// the plaintext to the engine, which buffers and encrypts it.
#[verifier::external_body]
fn session_send_plaintext(s: &mut rustls::ClientSession, data: &[u8]) -> Result<(), CabotError> {
    match std::io::Write::write_all(s, data) {
        Ok(()) => Ok(()),
        Err(_) => Err(CabotError::Io(IoKind::Transport)),
    }
}

/// What the caller must do next to advance the TLS handshake.
pub enum HandshakeAction {
    /// Write these bytes to the transport, whole, and flush.
    Send(Vec<u8>),
    /// Read a chunk from the transport and pass it to `consume`.
    NeedData,
    /// The handshake is complete.
    Done,
}

/// A TLS client session for one connection attempt: the engine, plus the
/// name validation that created it.
pub struct TlsSession {
    session: rustls::ClientSession,
}

impl TlsSession {
    /// Opens an engine for `host`, failing with `HostnameParse` exactly
    /// when the host is not a valid TLS server name.
    pub fn new(host: &str) -> (r: Result<TlsSession, CabotError>)
        ensures
            r is Ok <==> dns_name_ok(host.spec_bytes()),
            r matches Err(e) ==> e@ == SpecCabotError::HostnameParse(host.spec_bytes()),
    {
        match new_client_session(host) {
            Some(session) => Ok(TlsSession { session }),
            None => {
                let name = vstd::slice::slice_to_vec(host.as_bytes());
                Err(CabotError::HostnameParse(name))
            },
        }
    }

    /// The next handshake step: pending engine output must be sent first;
    /// otherwise, while the engine is still handshaking, it needs
    /// transport bytes; otherwise the handshake is over.
    pub fn handshake_action(&mut self) -> (r: HandshakeAction)
    {
        if session_wants_write(&self.session) {
            HandshakeAction::Send(session_take_tls_output(&mut self.session))
        } else if session_is_handshaking(&self.session) {
            HandshakeAction::NeedData
        } else {
            HandshakeAction::Done
        }
    }

    /// Feeds transport bytes to the engine and lets it process them;
    /// reports how many bytes the engine consumed. Fails on a transport
    /// fault or on ciphertext the engine rejects.
    pub fn consume(&mut self, data: &[u8]) -> (r: Result<usize, CabotError>)
        ensures
            r matches Ok(n) ==> n <= data@.len(),
    {
        let n = match session_feed_tls_input(&mut self.session, data) {
            Ok(n) => n,
            Err(e) => {
                return Err(e);
            },
        };
        match session_process_packets(&mut self.session) {
            Ok(()) => Ok(n),
            Err(_) => Err(CabotError::Io(IoKind::Transport)),
        }
    }

    /// One read step: feed the ciphertext just read from the transport,
    /// process it, and return the decrypted plaintext that became
    /// available, at most one page of it.
    pub fn read_step(&mut self, ciphertext: &[u8]) -> (r: Result<Vec<u8>, CabotError>)
        ensures
            r matches Ok(v) ==> v@.len() <= crate::BUFFER_PAGE_SIZE,
    {
        match self.consume(ciphertext) {
            Ok(_) => session_read_plaintext(&mut self.session, crate::BUFFER_PAGE_SIZE),
            Err(e) => Err(e),
        }
    }

    /// One write step: hand the plaintext to the engine and return the
    /// ciphertext records the caller must write to the transport.
    pub fn write_step(&mut self, plaintext: &[u8]) -> (r: Result<Vec<u8>, CabotError>)
    {
        match session_send_plaintext(&mut self.session, plaintext) {
            Ok(()) => Ok(session_take_tls_output(&mut self.session)),
            Err(e) => Err(e),
        }
    }
}

} // verus!
