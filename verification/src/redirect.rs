//! Redirect signals and the construction of the follow-up request.
//!
//! A redirect status carries a target URL. Statuses 301, 302 and 303 reset
//! the method to GET and drop the body; 307 and 308 preserve both. The
//! `User-Agent` value and every `Set-Cookie` line of the request being
//! redirected are carried onto the follow-up request.

use vstd::prelude::*;
use vstd::seq_lib::*;

use crate::bytes::{
    eq_ignore_case, lemma_trim_idempotent, lemma_trim_leading_space, lower_seq, push_all, trim,
    trim_bytes, SP,
};

verus! {

/// A server-issued redirect, as decoded from a response status line and its
/// `Location` header. The payload is the redirect target.
pub enum RedirectSignal {
    Found(Vec<u8>),
    MovedPermanently(Vec<u8>),
    SeeOther(Vec<u8>),
    TemporaryRedirect(Vec<u8>),
    PermanentRedirect(Vec<u8>),
}

/// Mathematical image of a `RedirectSignal`.
pub enum SpecRedirect {
    Found(Seq<u8>),
    MovedPermanently(Seq<u8>),
    SeeOther(Seq<u8>),
    TemporaryRedirect(Seq<u8>),
    PermanentRedirect(Seq<u8>),
}

impl View for RedirectSignal {
    type V = SpecRedirect;

    open spec fn view(&self) -> SpecRedirect {
        match self {
            RedirectSignal::Found(u) => SpecRedirect::Found(u@),
            RedirectSignal::MovedPermanently(u) => SpecRedirect::MovedPermanently(u@),
            RedirectSignal::SeeOther(u) => SpecRedirect::SeeOther(u@),
            RedirectSignal::TemporaryRedirect(u) => SpecRedirect::TemporaryRedirect(u@),
            RedirectSignal::PermanentRedirect(u) => SpecRedirect::PermanentRedirect(u@),
        }
    }
}

impl SpecRedirect {
    /// The redirect target.
    pub open spec fn url(self) -> Seq<u8> {
        match self {
            SpecRedirect::Found(u) => u,
            SpecRedirect::MovedPermanently(u) => u,
            SpecRedirect::SeeOther(u) => u,
            SpecRedirect::TemporaryRedirect(u) => u,
            SpecRedirect::PermanentRedirect(u) => u,
        }
    }

    /// Whether the original method and body are preserved (307 and 308)
    /// rather than reset to a bodyless GET (301, 302 and 303).
    pub open spec fn preserves_method(self) -> bool {
        self is TemporaryRedirect || self is PermanentRedirect
    }
}

impl RedirectSignal {
    /// The redirect target of this signal.
    pub fn target(&self) -> (r: &Vec<u8>)
        ensures
            r@ == self@.url(),
    {
        match self {
            RedirectSignal::Found(u) => u,
            RedirectSignal::MovedPermanently(u) => u,
            RedirectSignal::SeeOther(u) => u,
            RedirectSignal::TemporaryRedirect(u) => u,
            RedirectSignal::PermanentRedirect(u) => u,
        }
    }
}

/// What the query logic reads of a request: method, scheme, authority, host,
/// the ordered header lines (`Name: value`, duplicates allowed), and the
/// optional body.
pub struct RequestModel {
    pub method: Vec<u8>,
    pub scheme: Vec<u8>,
    pub authority: Vec<u8>,
    pub host: Vec<u8>,
    pub headers: Vec<Vec<u8>>,
    pub body: Option<Vec<u8>>,
}

/// Everything the follow-up request is built from: the target URL, the
/// method and body to use, and the identity headers carried over.
pub struct RedirectRequest {
    pub url: Vec<u8>,
    pub method: Vec<u8>,
    pub body: Option<Vec<u8>>,
    pub user_agent: Option<Vec<u8>>,
    pub cookie_headers: Vec<Vec<u8>>,
}

pub open spec fn name_get() -> Seq<u8> {
    seq![71u8, 69u8, 84u8]
}

/// "user-agent:" in lower case.
pub open spec fn name_user_agent() -> Seq<u8> {
    seq![117u8, 115u8, 101u8, 114u8, 45u8, 97u8, 103u8, 101u8, 110u8, 116u8, 58u8]
}

/// "set-cookie:" in lower case.
pub open spec fn name_set_cookie() -> Seq<u8> {
    seq![115u8, 101u8, 116u8, 45u8, 99u8, 111u8, 111u8, 107u8, 105u8, 101u8, 58u8]
}

/// The line names the `User-Agent` header, in any case.
pub open spec fn is_ua_line(l: Seq<u8>) -> bool {
    l.len() >= 11 && lower_seq(l.take(11)) == name_user_agent()
}

/// The line names the `Set-Cookie` header, in any case.
pub open spec fn is_cookie_line(l: Seq<u8>) -> bool {
    l.len() >= 11 && lower_seq(l.take(11)) == name_set_cookie()
}

/// The trimmed value of the last `User-Agent` line, if any.
pub open spec fn last_ua(hs: Seq<Seq<u8>>) -> Option<Seq<u8>>
    decreases hs.len(),
{
    if hs.len() == 0 {
        None
    } else if is_ua_line(hs.last()) {
        Some(trim(hs.last().skip(11)))
    } else {
        last_ua(hs.drop_last())
    }
}

/// All `Set-Cookie` lines, in order, unmodified.
pub open spec fn cookie_lines(hs: Seq<Seq<u8>>) -> Seq<Seq<u8>> {
    hs.filter(|l: Seq<u8>| is_cookie_line(l))
}

/// The view of an optional byte vector.
pub open spec fn opt_view(b: Option<Vec<u8>>) -> Option<Seq<u8>> {
    match b {
        Some(v) => Some(v@),
        None => None,
    }
}

fn user_agent_name() -> (r: Vec<u8>)
    ensures
        r@ == name_user_agent(),
{
    let mut v: Vec<u8> = Vec::new();
    v.push(117);
    v.push(115);
    v.push(101);
    v.push(114);
    v.push(45);
    v.push(97);
    v.push(103);
    v.push(101);
    v.push(110);
    v.push(116);
    v.push(58);
    proof {
        assert(v@ =~= name_user_agent());
    }
    v
}

fn set_cookie_name() -> (r: Vec<u8>)
    ensures
        r@ == name_set_cookie(),
{
    let mut v: Vec<u8> = Vec::new();
    v.push(115);
    v.push(101);
    v.push(116);
    v.push(45);
    v.push(99);
    v.push(111);
    v.push(111);
    v.push(107);
    v.push(105);
    v.push(101);
    v.push(58);
    proof {
        assert(v@ =~= name_set_cookie());
    }
    v
}

fn get_method() -> (r: Vec<u8>)
    ensures
        r@ == name_get(),
{
    let mut v: Vec<u8> = Vec::new();
    v.push(71);
    v.push(69);
    v.push(84);
    proof {
        assert(v@ =~= name_get());
    }
    v
}

fn clone_bytes(v: &Vec<u8>) -> (r: Vec<u8>)
    ensures
        r@ == v@,
{
    let mut out: Vec<u8> = Vec::new();
    push_all(&mut out, v.as_slice());
    proof {
        assert(out@ =~= v@);
    }
    out
}

/// The line carries the given header name (lower case, colon included), in
/// any case.
fn line_has_name(line: &Vec<u8>, name: &Vec<u8>) -> (r: bool)
    requires
        lower_seq(name@) == name@,
    ensures
        r == (line@.len() >= name@.len() && lower_seq(line@.take(name@.len() as int)) == name@),
{
    if line.len() < name.len() {
        return false;
    }
    let head = vstd::slice::slice_subrange(line.as_slice(), 0, name.len());
    eq_ignore_case(head, name.as_slice())
}

proof fn lemma_names_are_lower()
    ensures
        lower_seq(name_user_agent()) == name_user_agent(),
        lower_seq(name_set_cookie()) == name_set_cookie(),
{
    assert(lower_seq(name_user_agent()) =~= name_user_agent());
    assert(lower_seq(name_set_cookie()) =~= name_set_cookie());
}

/// Builds the follow-up request for a redirect: 301, 302 and 303 reset the
/// method to GET and drop the body, 307 and 308 preserve both; the target
/// URL is the signal's; the `User-Agent` value and all `Set-Cookie` lines of
/// `req` are carried over.
pub fn follow_redirect(req: &RequestModel, sig: &RedirectSignal) -> (r: RedirectRequest)
    ensures
        r.url@ == sig@.url(),
        !sig@.preserves_method() ==> r.method@ == name_get() && r.body is None,
        sig@.preserves_method() ==> r.method@ == req.method@ && opt_view(r.body) == opt_view(
            req.body,
        ),
        opt_view(r.user_agent) == last_ua(req.headers.deep_view()),
        r.cookie_headers.deep_view() == cookie_lines(req.headers.deep_view()),
{
    let url = clone_bytes(sig.target());
    let (method, body): (Vec<u8>, Option<Vec<u8>>) = match sig {
        RedirectSignal::Found(_) | RedirectSignal::MovedPermanently(_) | RedirectSignal::SeeOther(
            _,
        ) => (get_method(), None),
        RedirectSignal::TemporaryRedirect(_) | RedirectSignal::PermanentRedirect(_) => {
            let b = match &req.body {
                Some(b) => Some(clone_bytes(b)),
                None => None,
            };
            (clone_bytes(&req.method), b)
        },
    };
    let ua_name = user_agent_name();
    let cookie_name = set_cookie_name();
    proof {
        lemma_names_are_lower();
    }
    let mut user_agent: Option<Vec<u8>> = None;
    let mut cookies: Vec<Vec<u8>> = Vec::new();
    let n = req.headers.len();
    let mut i: usize = 0;
    while i < n
        invariant
            n == req.headers@.len(),
            i <= n,
            ua_name@ == name_user_agent(),
            cookie_name@ == name_set_cookie(),
            lower_seq(ua_name@) == ua_name@,
            lower_seq(cookie_name@) == cookie_name@,
            opt_view(user_agent) == last_ua(req.headers.deep_view().take(i as int)),
            cookies.deep_view() == cookie_lines(req.headers.deep_view().take(i as int)),
        decreases n - i,
    {
        let ghost hs = req.headers.deep_view();
        let line = &req.headers[i];
        proof {
            assert(hs[i as int] == line@);
            assert(hs.take(i + 1).drop_last() =~= hs.take(i as int));
            assert(hs.take(i + 1).last() == hs[i as int]);
            assert(hs.take(i + 1) =~= hs.take(i as int).push(hs[i as int]));
            lemma_filter_distributes(hs.take(i as int), seq![hs[i as int]]);
            assert(hs.take(i as int) + seq![hs[i as int]] =~= hs.take(i + 1));
        }
        if line_has_name(line, &ua_name) {
            let value = vstd::slice::slice_subrange(line.as_slice(), 11, line.len());
            user_agent = Some(trim_bytes(value));
            proof {
                assert(line@.skip(11) =~= value@);
            }
        } else {
            proof {
                assert(!is_ua_line(hs[i as int]));
            }
        }
        if line_has_name(line, &cookie_name) {
            cookies.push(clone_bytes(line));
            proof {
                lemma_filter_singleton_in(hs[i as int]);
                assert(cookies.deep_view() =~= cookie_lines(hs.take(i + 1)));
            }
        } else {
            proof {
                lemma_filter_singleton_out(hs[i as int]);
                assert(cookies.deep_view() =~= cookie_lines(hs.take(i + 1)));
            }
        }
        i += 1;
    }
    proof {
        assert(req.headers.deep_view().take(n as int) =~= req.headers.deep_view());
    }
    RedirectRequest { url, method, body, user_agent, cookie_headers: cookies }
}

proof fn lemma_filter_distributes(a: Seq<Seq<u8>>, b: Seq<Seq<u8>>)
    ensures
        (a + b).filter(|l: Seq<u8>| is_cookie_line(l)) == a.filter(|l: Seq<u8>| is_cookie_line(l))
            + b.filter(|l: Seq<u8>| is_cookie_line(l)),
{
    Seq::filter_distributes_over_add(a, b, |l: Seq<u8>| is_cookie_line(l));
}

proof fn lemma_filter_singleton_in(l: Seq<u8>)
    requires
        is_cookie_line(l),
    ensures
        seq![l].filter(|x: Seq<u8>| is_cookie_line(x)) == seq![l],
{
    reveal_with_fuel(Seq::filter, 2);
    assert(seq![l].drop_last() =~= Seq::<Seq<u8>>::empty());
    assert(seq![l].filter(|x: Seq<u8>| is_cookie_line(x)) =~= seq![l]);
}

proof fn lemma_filter_singleton_out(l: Seq<u8>)
    requires
        !is_cookie_line(l),
    ensures
        seq![l].filter(|x: Seq<u8>| is_cookie_line(x)) == Seq::<Seq<u8>>::empty(),
{
    reveal_with_fuel(Seq::filter, 2);
    assert(seq![l].drop_last() =~= Seq::<Seq<u8>>::empty());
    assert(seq![l].filter(|x: Seq<u8>| is_cookie_line(x)) =~= Seq::<Seq<u8>>::empty());
}

/// Every `Set-Cookie` line of the request survives onto the follow-up
/// request, unmodified and in order.
pub proof fn lemma_cookies_carried_over(hs: Seq<Seq<u8>>, k: int)
    requires
        0 <= k < hs.len(),
        is_cookie_line(hs[k]),
    ensures
        cookie_lines(hs).contains(hs[k]),
{
    broadcast use vstd::seq_lib::group_filter_ensures;

    assert(hs.filter(|l: Seq<u8>| is_cookie_line(l)).contains(hs[k]));
}

/// A `User-Agent` header line carrying the value `u`.
pub open spec fn ua_line_of(u: Seq<u8>) -> Seq<u8> {
    name_user_agent() + seq![SP] + u
}

/// The header lines a follow-up request carries: the rebuilt `User-Agent`
/// line, if one was carried over, then every `Set-Cookie` line.
pub open spec fn mk_forward_headers(ua: Option<Seq<u8>>, cookies: Seq<Seq<u8>>) -> Seq<Seq<u8>> {
    match ua {
        Some(u) => seq![ua_line_of(u)] + cookies,
        None => cookies,
    }
}

/// Builds the identity header lines for the follow-up request from what
/// `follow_redirect` carried over.
pub fn forward_headers(r: &RedirectRequest) -> (hs: Vec<Vec<u8>>)
    ensures
        hs.deep_view() == mk_forward_headers(
            opt_view(r.user_agent),
            r.cookie_headers.deep_view(),
        ),
{
    let mut hs: Vec<Vec<u8>> = Vec::new();
    match &r.user_agent {
        Some(u) => {
            let mut line = user_agent_name();
            line.push(SP);
            push_all(&mut line, u.as_slice());
            proof {
                assert(line@ =~= ua_line_of(u@));
            }
            let ghost lv = line@;
            hs.push(line);
            proof {
                assert(hs@[0].deep_view() =~= lv);
                assert(hs.deep_view() =~= mk_forward_headers(
                    opt_view(r.user_agent),
                    r.cookie_headers.deep_view().take(0),
                ));
            }
        },
        None => {
            proof {
                assert(hs.deep_view() =~= mk_forward_headers(
                    opt_view(r.user_agent),
                    r.cookie_headers.deep_view().take(0),
                ));
            }
        },
    }
    let n = r.cookie_headers.len();
    let mut i: usize = 0;
    while i < n
        invariant
            n == r.cookie_headers@.len(),
            i <= n,
            hs.deep_view() == mk_forward_headers(
                opt_view(r.user_agent),
                r.cookie_headers.deep_view().take(i as int),
            ),
        decreases n - i,
    {
        let ghost pre = hs.deep_view();
        let line = clone_bytes(&r.cookie_headers[i]);
        let ghost lv = line@;
        hs.push(line);
        proof {
            let cs = r.cookie_headers.deep_view();
            assert(r.cookie_headers@[i as int].deep_view() =~= r.cookie_headers@[i as int]@);
            assert(lv == cs[i as int]);
            assert(hs@[hs@.len() - 1].deep_view() =~= lv);
            assert(hs.deep_view() =~= pre.push(cs[i as int]));
            assert(mk_forward_headers(opt_view(r.user_agent), cs.take(i + 1)) =~= mk_forward_headers(
                opt_view(r.user_agent),
                cs.take(i as int),
            ).push(cs[i as int]));
        }
        i += 1;
    }
    proof {
        assert(r.cookie_headers.deep_view().take(n as int) =~= r.cookie_headers.deep_view());
    }
    hs
}

/// The value `last_ua` finds is already trimmed.
pub proof fn lemma_last_ua_trimmed(hs: Seq<Seq<u8>>)
    ensures
        last_ua(hs) matches Some(u) ==> trim(u) == u,
    decreases hs.len(),
{
    if hs.len() > 0 {
        if is_ua_line(hs.last()) {
            lemma_trim_idempotent(hs.last().skip(11));
        } else {
            lemma_last_ua_trimmed(hs.drop_last());
        }
    }
}

proof fn lemma_names_differ()
    ensures
        name_user_agent() != name_set_cookie(),
{
    assert(name_user_agent()[0] == 117u8);
    assert(name_set_cookie()[0] == 115u8);
}

proof fn lemma_cookie_not_ua(l: Seq<u8>)
    requires
        is_cookie_line(l),
    ensures
        !is_ua_line(l),
{
    lemma_names_differ();
}

proof fn lemma_filter_all_kept(hs: Seq<Seq<u8>>)
    requires
        forall|k: int| 0 <= k < hs.len() ==> is_cookie_line(#[trigger] hs[k]),
    ensures
        cookie_lines(hs) == hs,
    decreases hs.len(),
{
    reveal_with_fuel(Seq::filter, 2);
    if hs.len() > 0 {
        lemma_filter_all_kept(hs.drop_last());
        assert(is_cookie_line(hs.last()));
        assert(cookie_lines(hs) =~= hs);
    } else {
        assert(cookie_lines(hs) =~= hs);
    }
}

/// Identity headers survive every hop: a follow-up request whose header
/// lines are exactly the forwarded ones carries the same `User-Agent`
/// value and the same `Set-Cookie` lines into the next redirect.
pub proof fn lemma_identity_headers_propagate(ua: Option<Seq<u8>>, cookies: Seq<Seq<u8>>)
    requires
        forall|k: int| 0 <= k < cookies.len() ==> is_cookie_line(#[trigger] cookies[k]),
        ua matches Some(u) ==> trim(u) == u,
    ensures
        last_ua(mk_forward_headers(ua, cookies)) == ua,
        cookie_lines(mk_forward_headers(ua, cookies)) == cookies,
{
    let hs = mk_forward_headers(ua, cookies);
    match ua {
        Some(u) => {
            let first = ua_line_of(u);
            assert(is_ua_line(first)) by {
                assert(first.take(11) =~= name_user_agent());
                lemma_names_are_lower();
            }
            lemma_last_ua_seek(first, cookies);
            assert(first.skip(11) =~= seq![SP] + u);
            lemma_trim_leading_space(u);
            assert(trim(first.skip(11)) == u);
            Seq::filter_distributes_over_add(seq![first], cookies, |l: Seq<u8>| is_cookie_line(l));
            assert(seq![first] + cookies =~= hs);
            lemma_cookie_not_ua_single(first, u);
            lemma_filter_all_kept(cookies);
            assert(cookie_lines(hs) =~= cookies);
        },
        None => {
            lemma_last_ua_no_ua(cookies);
            lemma_filter_all_kept(cookies);
        },
    }
}

/// Scanning back over non-`User-Agent` lines finds the `User-Agent` line
/// in front of them.
proof fn lemma_last_ua_seek(first: Seq<u8>, cookies: Seq<Seq<u8>>)
    requires
        is_ua_line(first),
        forall|k: int| 0 <= k < cookies.len() ==> is_cookie_line(#[trigger] cookies[k]),
    ensures
        last_ua(seq![first] + cookies) == Some(trim(first.skip(11))),
    decreases cookies.len(),
{
    let hs = seq![first] + cookies;
    if cookies.len() == 0 {
        assert(hs.last() == first);
    } else {
        assert(hs.last() == cookies.last());
        lemma_cookie_not_ua(cookies.last());
        assert(hs.drop_last() =~= seq![first] + cookies.drop_last());
        lemma_last_ua_seek(first, cookies.drop_last());
    }
}

/// A sequence of `Set-Cookie` lines holds no `User-Agent` value.
proof fn lemma_last_ua_no_ua(cookies: Seq<Seq<u8>>)
    requires
        forall|k: int| 0 <= k < cookies.len() ==> is_cookie_line(#[trigger] cookies[k]),
    ensures
        last_ua(cookies) is None,
    decreases cookies.len(),
{
    if cookies.len() > 0 {
        lemma_cookie_not_ua(cookies.last());
        lemma_last_ua_no_ua(cookies.drop_last());
    }
}

proof fn lemma_cookie_not_ua_single(first: Seq<u8>, u: Seq<u8>)
    requires
        first == ua_line_of(u),
    ensures
        seq![first].filter(|l: Seq<u8>| is_cookie_line(l)) == Seq::<Seq<u8>>::empty(),
{
    assert(!is_cookie_line(first)) by {
        if is_cookie_line(first) {
            assert(first.take(11) =~= name_user_agent());
            lemma_names_are_lower();
            lemma_names_differ();
        }
    }
    lemma_filter_singleton_out(first);
}

} // verus!
