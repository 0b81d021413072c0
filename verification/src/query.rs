//! Query orchestration decisions: scheme dispatch and the bounded redirect
//! loop. The caller resolves, connects, sends and decodes; after each
//! attempt it hands the outcome back here, and this module decides whether
//! the query is finished or which request the next attempt carries.

use vstd::prelude::*;

use crate::errors::CabotError;
use crate::redirect::{
    cookie_lines, follow_redirect, last_ua, name_get, opt_view, RedirectRequest, RedirectSignal,
    RequestModel,
};

verus! {

/// "http".
pub open spec fn name_http() -> Seq<u8> {
    seq![104u8, 116u8, 116u8, 112u8]
}

/// "https".
pub open spec fn name_https() -> Seq<u8> {
    seq![104u8, 116u8, 116u8, 112u8, 115u8]
}

#[derive(Clone, Copy, PartialEq, Eq, Structural, Debug)]
pub enum SchemeKind {
    /// Write the request on the raw transport and decode from it.
    Http,
    /// Handshake a TLS session over the transport and go through it.
    Https,
    /// Anything else fails the query with a scheme error.
    Other,
}

/// Selects the pipeline for the request's scheme; anything but `http` and
/// `https` is rejected.
pub fn classify_scheme(scheme: &[u8]) -> (r: SchemeKind)
    ensures
        r == SchemeKind::Http <==> scheme@ == name_http(),
        r == SchemeKind::Https <==> scheme@ == name_https(),
{
    let mut http: Vec<u8> = Vec::new();
    http.push(104);
    http.push(116);
    http.push(116);
    http.push(112);
    proof {
        assert(http@ =~= name_http());
    }
    if crate::bytes::bytes_eq(scheme, http.as_slice()) {
        return SchemeKind::Http;
    }
    http.push(115);
    proof {
        assert(http@ =~= name_https());
    }
    if crate::bytes::bytes_eq(scheme, http.as_slice()) {
        return SchemeKind::Https;
    }
    proof {
        assert(name_http().len() != name_https().len());
    }
    SchemeKind::Other
}

/// How one connection attempt ended, as the caller reports it.
pub enum AttemptOutcome {
    /// The response was decoded to completion and handed to the sink.
    Success,
    /// The decoder signalled a redirect; no body was processed.
    Redirected(RedirectSignal),
    /// The attempt failed; the query fails with this error.
    Failed(CabotError),
}

/// What the caller is to do next.
pub enum AttemptDecision {
    /// Stop looping and return this outcome; a redirect with no budget
    /// left stops quietly.
    Finish(Result<(), CabotError>),
    /// Build the next request from this and try again.
    Follow(RedirectRequest),
}

/// Decides what follows one attempt: success and failure end the query, a
/// redirect with budget left yields the follow-up request and costs one
/// unit of budget, and a redirect without budget ends the query quietly.
/// Returns the decision and the remaining budget.
pub fn decide_after_attempt(req: &RequestModel, remaining: u8, outcome: AttemptOutcome) -> (r: (
    AttemptDecision,
    u8,
))
    ensures
        outcome matches AttemptOutcome::Success ==> (r.0 matches AttemptDecision::Finish(res)
            && res is Ok) && r.1 == remaining,
        outcome matches AttemptOutcome::Failed(e) ==> (r.0 matches AttemptDecision::Finish(res)
            && res matches Err(e2) && e2@ == e@) && r.1 == remaining,
        outcome matches AttemptOutcome::Redirected(sig) ==> (if remaining == 0 {
            (r.0 matches AttemptDecision::Finish(res) && res is Ok) && r.1 == 0
        } else {
            (r.0 matches AttemptDecision::Follow(d) && d.url@ == sig@.url() && (
            !sig@.preserves_method() ==> d.method@ == name_get() && d.body is None) && (
            sig@.preserves_method() ==> d.method@ == req.method@ && opt_view(d.body) == opt_view(
                req.body,
            )) && opt_view(d.user_agent) == last_ua(req.headers.deep_view())
                && d.cookie_headers.deep_view() == cookie_lines(req.headers.deep_view())) && r.1
                == remaining - 1
        }),
{
    match outcome {
        AttemptOutcome::Success => (AttemptDecision::Finish(Ok(())), remaining),
        AttemptOutcome::Failed(e) => (AttemptDecision::Finish(Err(e)), remaining),
        AttemptOutcome::Redirected(sig) => {
            if remaining == 0 {
                (AttemptDecision::Finish(Ok(())), 0)
            } else {
                (AttemptDecision::Follow(follow_redirect(req, &sig)), remaining - 1)
            }
        },
    }
}

/// Attempts made by the redirect loop when driven by
/// `decide_after_attempt`: one attempt always happens; each further
/// attempt happens only while the last outcome was a redirect and budget
/// remained, and costs one unit of budget.
pub open spec fn query_attempts(remaining: nat, redirects: Seq<bool>) -> nat
    decreases redirects.len(),
{
    if redirects.len() == 0 {
        1
    } else if redirects.first() && remaining > 0 {
        1 + query_attempts((remaining - 1) as nat, redirects.drop_first())
    } else {
        1
    }
}

/// The redirect budget is hard: whatever the chain of outcomes, at most
/// `remaining` additional attempts follow the first; and a chain of
/// redirects longer than the budget is cut off after exactly `remaining`
/// additional hops.
pub proof fn lemma_redirect_budget(remaining: nat, redirects: Seq<bool>)
    ensures
        query_attempts(remaining, redirects) <= remaining + 1,
        (forall|k: int| 0 <= k < redirects.len() ==> redirects[k]) && redirects.len() >= remaining
            ==> query_attempts(remaining, redirects) == remaining + 1,
    decreases redirects.len(),
{
    if redirects.len() > 0 {
        lemma_redirect_budget(
            if remaining > 0 {
                (remaining - 1) as nat
            } else {
                0
            },
            redirects.drop_first(),
        );
        if (forall|k: int| 0 <= k < redirects.len() ==> redirects[k]) && redirects.len()
            >= remaining && remaining > 0 {
            assert(redirects[0]);
            assert(forall|k: int|
                0 <= k < redirects.drop_first().len() ==> #[trigger] redirects.drop_first()[k]
                    == redirects[k + 1]);
        }
    }
}

} // verus!
