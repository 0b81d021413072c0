//! The error taxonomy: hostname validation, scheme dispatch, labelled I/O
//! failures, and response-grammar violations. None of these are retried; a
//! redirect is not an error but a deliberate new attempt.

use vstd::prelude::*;

use crate::decoder::ProtocolFault;

verus! {

/// The labelled sub-kinds of an I/O failure, kept distinct so a caller can
/// tell a slow resolver, a slow connect, one stalled read, and an overall
/// slow transfer apart.
#[derive(Clone, Copy, PartialEq, Eq, Structural, Debug)]
pub enum IoKind {
    DnsTimeout,
    ConnectTimeout,
    ReadTimeout,
    RequestTimeout,
    Transport,
}

/// A failed query, by cause.
#[derive(Debug)]
pub enum CabotError {
    /// The target host is not a valid TLS server name; carries the host.
    HostnameParse(Vec<u8>),
    /// The request URI's scheme is neither `http` nor `https`; carries it.
    Scheme(Vec<u8>),
    /// A transport failure or timeout, labelled.
    Io(IoKind),
    /// The response violated the HTTP/1.1 grammar.
    Protocol(ProtocolFault),
}

/// Mathematical image of a `CabotError`.
pub enum SpecCabotError {
    HostnameParse(Seq<u8>),
    Scheme(Seq<u8>),
    Io(IoKind),
    Protocol(ProtocolFault),
}

impl View for CabotError {
    type V = SpecCabotError;

    open spec fn view(&self) -> SpecCabotError {
        match self {
            CabotError::HostnameParse(h) => SpecCabotError::HostnameParse(h@),
            CabotError::Scheme(s) => SpecCabotError::Scheme(s@),
            CabotError::Io(k) => SpecCabotError::Io(*k),
            CabotError::Protocol(f) => SpecCabotError::Protocol(*f),
        }
    }
}

/// How a failure seen inside the request-timeout envelope is labelled: a
/// stalled single read keeps its more specific label, anything else that
/// made the envelope fire is the request timeout.
pub open spec fn spec_label_request_timeout(inner: Option<IoKind>) -> IoKind {
    if inner == Some(IoKind::ReadTimeout) {
        IoKind::ReadTimeout
    } else {
        IoKind::RequestTimeout
    }
}

pub fn label_request_timeout(inner: Option<IoKind>) -> (r: IoKind)
    ensures
        r == spec_label_request_timeout(inner),
{
    match inner {
        Some(IoKind::ReadTimeout) => IoKind::ReadTimeout,
        _ => IoKind::RequestTimeout,
    }
}

/// A stalled single read comes out of the envelope under a label that no
/// other cause of the envelope firing ever gets: the two timeouts stay
/// distinguishable.
pub proof fn lemma_timeout_labels_distinct(other: Option<IoKind>)
    requires
        other != Some(IoKind::ReadTimeout),
    ensures
        spec_label_request_timeout(Some(IoKind::ReadTimeout)) != spec_label_request_timeout(other),
{
}

} // verus!
