use cabot::errors::{label_request_timeout, CabotError, IoKind};
use cabot::query::{classify_scheme, decide_after_attempt, AttemptDecision, AttemptOutcome, SchemeKind};
use cabot::redirect::{follow_redirect, forward_headers, RedirectSignal, RequestModel};

fn sample_request() -> RequestModel {
    RequestModel {
        method: b"POST".to_vec(),
        scheme: b"http".to_vec(),
        authority: b"example.com:80".to_vec(),
        host: b"example.com".to_vec(),
        headers: vec![
            b"Accept: */*".to_vec(),
            b"User-Agent: cabot-test/1.0".to_vec(),
            b"Set-Cookie: a=1".to_vec(),
            b"Set-Cookie: b=2".to_vec(),
        ],
        body: Some(b"payload".to_vec()),
    }
}

#[test]
fn scheme_dispatch() {
    assert_eq!(classify_scheme(b"http"), SchemeKind::Http);
    assert_eq!(classify_scheme(b"https"), SchemeKind::Https);
    assert_eq!(classify_scheme(b"ftp"), SchemeKind::Other);
    assert_eq!(classify_scheme(b"HTTP"), SchemeKind::Other);
}

#[test]
fn found_redirect_resets_method_and_drops_body() {
    let req = sample_request();
    let sig = RedirectSignal::Found(b"http://example.com/next".to_vec());
    let d = follow_redirect(&req, &sig);
    assert_eq!(d.url, b"http://example.com/next".to_vec());
    assert_eq!(d.method, b"GET".to_vec());
    assert!(d.body.is_none());
}

#[test]
fn temporary_redirect_preserves_method_and_body() {
    let req = sample_request();
    let sig = RedirectSignal::TemporaryRedirect(b"http://example.com/next".to_vec());
    let d = follow_redirect(&req, &sig);
    assert_eq!(d.url, b"http://example.com/next".to_vec());
    assert_eq!(d.method, b"POST".to_vec());
    assert_eq!(d.body, Some(b"payload".to_vec()));
}

#[test]
fn identity_headers_are_carried_over() {
    let req = sample_request();
    let sig = RedirectSignal::SeeOther(b"/other".to_vec());
    let d = follow_redirect(&req, &sig);
    assert_eq!(d.user_agent, Some(b"cabot-test/1.0".to_vec()));
    assert_eq!(d.cookie_headers, vec![b"Set-Cookie: a=1".to_vec(), b"Set-Cookie: b=2".to_vec()]);
}

#[test]
fn identity_headers_survive_a_second_hop() {
    let req = sample_request();
    let sig = RedirectSignal::Found(b"/hop1".to_vec());
    let d1 = follow_redirect(&req, &sig);
    let req2 = RequestModel {
        method: d1.method.clone(),
        scheme: b"http".to_vec(),
        authority: b"example.com:80".to_vec(),
        host: b"example.com".to_vec(),
        headers: forward_headers(&d1),
        body: d1.body.clone(),
    };
    let sig2 = RedirectSignal::Found(b"/hop2".to_vec());
    let d2 = follow_redirect(&req2, &sig2);
    assert_eq!(d2.user_agent, Some(b"cabot-test/1.0".to_vec()));
    assert_eq!(d2.cookie_headers, vec![b"Set-Cookie: a=1".to_vec(), b"Set-Cookie: b=2".to_vec()]);
}

#[test]
fn redirect_budget_is_exhausted_after_exactly_that_many_hops() {
    let mut req = sample_request();
    let mut remaining = 3u8;
    let mut follows = 0;
    loop {
        let sig = RedirectSignal::Found(b"http://example.com/again".to_vec());
        let (decision, left) = decide_after_attempt(&req, remaining, AttemptOutcome::Redirected(sig));
        remaining = left;
        match decision {
            AttemptDecision::Follow(d) => {
                follows += 1;
                req = RequestModel {
                    method: d.method,
                    scheme: b"http".to_vec(),
                    authority: b"example.com:80".to_vec(),
                    host: b"example.com".to_vec(),
                    headers: forward_headers_owned(d.user_agent, d.cookie_headers),
                    body: d.body,
                };
            },
            AttemptDecision::Finish(res) => {
                assert!(res.is_ok());
                break;
            },
        }
    }
    assert_eq!(follows, 3);
    assert_eq!(remaining, 0);
}

fn forward_headers_owned(user_agent: Option<Vec<u8>>, cookie_headers: Vec<Vec<u8>>) -> Vec<Vec<u8>> {
    let d = cabot::redirect::RedirectRequest {
        url: Vec::new(),
        method: b"GET".to_vec(),
        body: None,
        user_agent,
        cookie_headers,
    };
    forward_headers(&d)
}

#[test]
fn a_redirect_with_no_budget_left_ends_the_query() {
    let req = sample_request();
    let sig = RedirectSignal::Found(b"http://example.com/again".to_vec());
    let (decision, left) = decide_after_attempt(&req, 0, AttemptOutcome::Redirected(sig));
    assert_eq!(left, 0);
    assert!(matches!(decision, AttemptDecision::Finish(Ok(()))));
}

#[test]
fn success_and_failure_end_the_query() {
    let req = sample_request();
    let (decision, left) = decide_after_attempt(&req, 5, AttemptOutcome::Success);
    assert_eq!(left, 5);
    assert!(matches!(decision, AttemptDecision::Finish(Ok(()))));
    let (decision, left) =
        decide_after_attempt(&req, 5, AttemptOutcome::Failed(CabotError::Io(IoKind::DnsTimeout)));
    assert_eq!(left, 5);
    assert!(matches!(decision, AttemptDecision::Finish(Err(CabotError::Io(IoKind::DnsTimeout)))));
}

#[test]
fn timeout_labels_stay_distinct() {
    let stalled_read = label_request_timeout(Some(IoKind::ReadTimeout));
    let slow_transfer = label_request_timeout(None);
    let other_failure = label_request_timeout(Some(IoKind::Transport));
    assert_eq!(stalled_read, IoKind::ReadTimeout);
    assert_eq!(slow_transfer, IoKind::RequestTimeout);
    assert_eq!(other_failure, IoKind::RequestTimeout);
    assert_ne!(stalled_read, slow_transfer);
}

#[test]
fn user_agent_value_is_trimmed_and_last_wins() {
    let req = RequestModel {
        method: b"GET".to_vec(),
        scheme: b"http".to_vec(),
        authority: b"h:80".to_vec(),
        host: b"h".to_vec(),
        headers: vec![
            b"user-agent:   first  ".to_vec(),
            b"USER-AGENT:\tsecond\t".to_vec(),
        ],
        body: None,
    };
    let sig = RedirectSignal::Found(b"/x".to_vec());
    let d = follow_redirect(&req, &sig);
    assert_eq!(d.user_agent, Some(b"second".to_vec()));
}
