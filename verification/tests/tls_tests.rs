use cabot::errors::CabotError;
use cabot::tls::{HandshakeAction, TlsSession};

#[test]
fn invalid_server_name_is_rejected() {
    match TlsSession::new("not a hostname") {
        Err(CabotError::HostnameParse(h)) => assert_eq!(h, b"not a hostname".to_vec()),
        _ => panic!("expected a hostname parse error"),
    }
    assert!(TlsSession::new("").is_err());
}

#[test]
fn valid_server_name_is_accepted() {
    assert!(TlsSession::new("example.com").is_ok());
    assert!(TlsSession::new("a.b-c.example").is_ok());
}

#[test]
fn handshake_starts_by_sending_a_client_hello() {
    let mut s = TlsSession::new("example.com").unwrap();
    match s.handshake_action() {
        HandshakeAction::Send(bytes) => {
            assert!(!bytes.is_empty());
            // A TLS handshake record starts with content type 22.
            assert_eq!(bytes[0], 22);
        },
        _ => panic!("a fresh session must have handshake bytes to send"),
    }
    // With the hello extracted, the engine waits for the server.
    assert!(matches!(s.handshake_action(), HandshakeAction::NeedData));
}

#[test]
fn bytes_that_are_not_tls_records_are_rejected() {
    let mut s = TlsSession::new("example.com").unwrap();
    match s.handshake_action() {
        HandshakeAction::Send(_) => {},
        _ => panic!("expected handshake bytes"),
    }
    // The engine refuses input that does not deframe as TLS records.
    assert!(s.consume(b"this is not a tls record").is_err());
}

#[test]
fn plaintext_written_before_the_handshake_is_buffered() {
    let mut s = TlsSession::new("example.com").unwrap();
    // Drain the client hello first.
    match s.handshake_action() {
        HandshakeAction::Send(_) => {},
        _ => panic!("expected handshake bytes"),
    }
    // The engine accepts plaintext early; it cannot encrypt it yet, so no
    // records come out until the handshake completes.
    let out = s.write_step(b"GET / HTTP/1.1\r\n\r\n").unwrap();
    assert!(out.is_empty());
}
