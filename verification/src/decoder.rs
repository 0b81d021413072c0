//! Incremental HTTP/1.1 response decoder.
//!
//! The decoder is a resumable state machine over a plain byte buffer: the
//! caller feeds it whatever the transport delivered, and each step returns
//! the bytes to forward to the sink together with the next state. No I/O
//! happens here; reads, writes and timeouts are the caller's business.
//!
//! Header phase: bytes accumulate until the CRLF CRLF terminator is found.
//! The status line and headers are then emitted verbatim, a redirect status
//! with a `Location` header is signalled instead, and otherwise the
//! transfer encoding is derived once from the headers. Body phase: bytes
//! are forwarded under the chosen framing; chunked framing is parsed across
//! read boundaries by an explicit persisted state.

use vstd::prelude::*;

use crate::bytes::{
    all_digits, all_hex_digits, copy_subrange, crlf, crlfcrlf, dec_value, find_crlf,
    find_crlfcrlf, find_header_end, find_line_end, hex_value, lemma_find_at_append,
    lemma_find_at_some_bounds, line_matches, line_value, lower_seq, parse_decimal, parse_hex,
    push_all, slice_has_name, trim_bytes, CR, LF,
};
use crate::redirect::{RedirectSignal, SpecRedirect};

verus! {

/// A violation of the response grammar: the attempt fails, nothing is
/// retried.
#[derive(Clone, Copy, PartialEq, Eq, Structural, Debug)]
pub enum ProtocolFault {
    /// The status line is too short or its status code is not three digits.
    MalformedStatus,
    /// The `Content-Length` value is not a plain decimal number that fits.
    BadContentLength,
    /// A chunk-size line is not a plain hexadecimal number that fits.
    BadChunkSize,
}

/// How the response body is framed, derived once from the headers.
#[derive(Clone, Copy, PartialEq, Eq, Structural, Debug)]
pub enum TransferEncoding {
    /// `Content-Length: n`: exactly `n` body bytes follow.
    ContentLength(usize),
    /// `Transfer-Encoding: chunked`.
    Chunked,
    /// A `Transfer-Encoding` value other than `chunked`.
    Unknown,
    /// Neither header: the body runs until the peer closes the connection.
    Absent,
}

/// Where chunked-body parsing stands; persists across reads because a chunk
/// header or chunk body may be split across read boundaries.
#[derive(Clone, Copy, PartialEq, Eq, Structural, Debug)]
pub enum ChunkParseState {
    /// Waiting for a complete chunk-size line.
    ReadingHeader,
    /// A chunk-size line has just been parsed; never persists across reads.
    ChunkHeaderParsed,
    /// This many payload bytes (then CRLF) are still owed by the chunk.
    ReadingBody(usize),
}

/// One step of the header phase.
pub enum HeaderStep {
    /// The header terminator has not arrived yet: read more.
    NeedMore,
    /// A redirect status with a `Location` header: the attempt ends here.
    Redirect(RedirectSignal),
    /// The raw status line and headers, terminator included, to forward to
    /// the sink verbatim.
    Headers(Vec<u8>),
}

/// "location:" in lower case.
pub open spec fn name_location() -> Seq<u8> {
    seq![108u8, 111u8, 99u8, 97u8, 116u8, 105u8, 111u8, 110u8, 58u8]
}

/// "transfer-encoding:" in lower case.
pub open spec fn name_transfer_encoding() -> Seq<u8> {
    seq![
        116u8,
        114u8,
        97u8,
        110u8,
        115u8,
        102u8,
        101u8,
        114u8,
        45u8,
        101u8,
        110u8,
        99u8,
        111u8,
        100u8,
        105u8,
        110u8,
        103u8,
        58u8,
    ]
}

/// "content-length:" in lower case.
pub open spec fn name_content_length() -> Seq<u8> {
    seq![99u8, 111u8, 110u8, 116u8, 101u8, 110u8, 116u8, 45u8, 108u8, 101u8, 110u8, 103u8, 116u8, 104u8, 58u8]
}

/// "chunked" in lower case.
pub open spec fn name_chunked() -> Seq<u8> {
    seq![99u8, 104u8, 117u8, 110u8, 107u8, 101u8, 100u8]
}

fn location_name() -> (r: Vec<u8>)
    ensures
        r@ == name_location(),
        lower_seq(r@) == r@,
{
    let mut v: Vec<u8> = Vec::new();
    v.push(108);
    v.push(111);
    v.push(99);
    v.push(97);
    v.push(116);
    v.push(105);
    v.push(111);
    v.push(110);
    v.push(58);
    proof {
        assert(v@ =~= name_location());
        assert(lower_seq(v@) =~= v@);
    }
    v
}

fn transfer_encoding_name() -> (r: Vec<u8>)
    ensures
        r@ == name_transfer_encoding(),
        lower_seq(r@) == r@,
{
    let mut v: Vec<u8> = Vec::new();
    v.push(116);
    v.push(114);
    v.push(97);
    v.push(110);
    v.push(115);
    v.push(102);
    v.push(101);
    v.push(114);
    v.push(45);
    v.push(101);
    v.push(110);
    v.push(99);
    v.push(111);
    v.push(100);
    v.push(105);
    v.push(110);
    v.push(103);
    v.push(58);
    proof {
        assert(v@ =~= name_transfer_encoding());
        assert(lower_seq(v@) =~= v@);
    }
    v
}

fn content_length_name() -> (r: Vec<u8>)
    ensures
        r@ == name_content_length(),
        lower_seq(r@) == r@,
{
    let mut v: Vec<u8> = Vec::new();
    v.push(99);
    v.push(111);
    v.push(110);
    v.push(116);
    v.push(101);
    v.push(110);
    v.push(116);
    v.push(45);
    v.push(108);
    v.push(101);
    v.push(110);
    v.push(103);
    v.push(116);
    v.push(104);
    v.push(58);
    proof {
        assert(v@ =~= name_content_length());
        assert(lower_seq(v@) =~= v@);
    }
    v
}

fn chunked_value() -> (r: Vec<u8>)
    ensures
        r@ == name_chunked(),
        lower_seq(r@) == r@,
{
    let mut v: Vec<u8> = Vec::new();
    v.push(99);
    v.push(104);
    v.push(117);
    v.push(110);
    v.push(107);
    v.push(101);
    v.push(100);
    proof {
        assert(v@ =~= name_chunked());
        assert(lower_seq(v@) =~= v@);
    }
    v
}

/// The value of the first header line carrying `name`, searching `rest`
/// line by line.
pub open spec fn field_value(rest: Seq<u8>, name: Seq<u8>) -> Option<Seq<u8>>
    decreases rest.len(),
{
    match find_crlf(rest) {
        Option::Some(i) => if 0 <= i && i + 2 <= rest.len() {
            if line_matches(rest.take(i), name) {
                Option::Some(line_value(rest.take(i), name))
            } else {
                field_value(rest.skip(i + 2), name)
            }
        } else {
            Option::None
        },
        Option::None => if line_matches(rest, name) {
            Option::Some(line_value(rest, name))
        } else {
            Option::None
        },
    }
}

/// The header lines of `head`: everything after the status line.
pub open spec fn header_fields(head: Seq<u8>) -> Seq<u8> {
    match find_crlf(head) {
        Option::Some(i) => if 0 <= i && i + 2 <= head.len() {
            head.skip(i + 2)
        } else {
            Seq::empty()
        },
        Option::None => Seq::empty(),
    }
}

/// The three-digit status code of the status line, read after the nine
/// bytes of protocol version and space.
pub open spec fn status_of(head: Seq<u8>) -> Option<nat> {
    if head.len() >= 12 && all_digits(head.subrange(9, 12)) {
        Option::Some(dec_value(head.subrange(9, 12)))
    } else {
        Option::None
    }
}

/// The redirect statuses that are followed.
pub open spec fn is_redirect_code(c: nat) -> bool {
    c == 301 || c == 302 || c == 303 || c == 307 || c == 308
}

pub open spec fn spec_redirect_of(code: nat, loc: Seq<u8>) -> SpecRedirect {
    if code == 301 {
        SpecRedirect::MovedPermanently(loc)
    } else if code == 302 {
        SpecRedirect::Found(loc)
    } else if code == 303 {
        SpecRedirect::SeeOther(loc)
    } else if code == 307 {
        SpecRedirect::TemporaryRedirect(loc)
    } else {
        SpecRedirect::PermanentRedirect(loc)
    }
}

/// What a complete header block decides: a fault, a redirect to follow, or
/// the transfer encoding to decode the body under.
pub enum SpecHeaderOutcome {
    Fault(ProtocolFault),
    Redirect(SpecRedirect),
    Proceed(TransferEncoding),
}

pub open spec fn classify_head(head: Seq<u8>) -> SpecHeaderOutcome {
    match status_of(head) {
        Option::None => SpecHeaderOutcome::Fault(ProtocolFault::MalformedStatus),
        Option::Some(code) => {
            let fields = header_fields(head);
            let loc = field_value(fields, name_location());
            if is_redirect_code(code) && loc is Some {
                SpecHeaderOutcome::Redirect(spec_redirect_of(code, loc->Some_0))
            } else {
                match field_value(fields, name_transfer_encoding()) {
                    Option::Some(te) => SpecHeaderOutcome::Proceed(
                        if lower_seq(te) == name_chunked() {
                            TransferEncoding::Chunked
                        } else {
                            TransferEncoding::Unknown
                        },
                    ),
                    Option::None => match field_value(fields, name_content_length()) {
                        Option::Some(cl) => if cl.len() > 0 && all_digits(cl) && dec_value(cl)
                            <= usize::MAX {
                            SpecHeaderOutcome::Proceed(
                                TransferEncoding::ContentLength(dec_value(cl) as usize),
                            )
                        } else {
                            SpecHeaderOutcome::Fault(ProtocolFault::BadContentLength)
                        },
                        Option::None => SpecHeaderOutcome::Proceed(TransferEncoding::Absent),
                    },
                }
            }
        },
    }
}

/// Searches the header lines for `name` and hands back its trimmed value.
fn find_field(rest: &[u8], name: &Vec<u8>) -> (r: Option<Vec<u8>>)
    requires
        lower_seq(name@) == name@,
    ensures
        match r {
            Some(v) => field_value(rest@, name@) == Option::Some(v@),
            None => field_value(rest@, name@) is None,
        },
    decreases rest@.len(),
{
    match find_line_end(rest) {
        Some(i) => {
            proof {
                lemma_find_at_some_bounds(rest@, crlf(), 0, i as int);
                assert(crlf().len() == 2);
            }
            let line = vstd::slice::slice_subrange(rest, 0, i);
            proof {
                assert(line@ =~= rest@.take(i as int));
            }
            if slice_has_name(line, name.as_slice()) {
                let value = vstd::slice::slice_subrange(line, name.len(), line.len());
                proof {
                    assert(value@ =~= rest@.take(i as int).skip(name@.len() as int));
                }
                Some(trim_bytes(value))
            } else {
                let n = rest.len();
                let rest2 = vstd::slice::slice_subrange(rest, i + 2, n);
                proof {
                    assert(rest2@ =~= rest@.skip(i + 2));
                }
                find_field(rest2, name)
            }
        },
        None => {
            if slice_has_name(rest, name.as_slice()) {
                let value = vstd::slice::slice_subrange(rest, name.len(), rest.len());
                proof {
                    assert(value@ =~= rest@.skip(name@.len() as int));
                }
                Some(trim_bytes(value))
            } else {
                None
            }
        },
    }
}

/// Removes and returns everything past the first `size` elements; on a
/// short buffer everything is dropped and nothing returned.
pub fn drain_buffer<T: Copy>(buffer: &mut Vec<T>, size: usize) -> (r: Vec<T>)
    ensures
        old(buffer)@.len() >= size ==> r@ == old(buffer)@.skip(size as int) && final(buffer)@
            == old(buffer)@.take(size as int),
        old(buffer)@.len() < size ==> r@ == Seq::<T>::empty() && final(buffer)@ == Seq::<
            T,
        >::empty(),
{
    if buffer.len() >= size {
        let tail = vstd::slice::slice_to_vec(
            vstd::slice::slice_subrange(buffer.as_slice(), size, buffer.len()),
        );
        let head = vstd::slice::slice_to_vec(
            vstd::slice::slice_subrange(buffer.as_slice(), 0, size),
        );
        proof {
            assert(tail@ =~= old(buffer)@.skip(size as int));
            assert(head@ =~= old(buffer)@.take(size as int));
        }
        *buffer = head;
        tail
    } else {
        buffer.clear();
        Vec::new()
    }
}

/// The incremental response decoder: the raw bytes not yet classified, the
/// framing derived from the headers, where chunk parsing stands, and how
/// many body bytes have been forwarded on the content-length path.
pub struct HttpDecoder {
    pub buffer: Vec<u8>,
    pub transfer_encoding: TransferEncoding,
    pub chunk_state: ChunkParseState,
    pub body_count: usize,
}

impl HttpDecoder {
    /// A fresh decoder for one connection attempt.
    pub fn new() -> (r: HttpDecoder)
        ensures
            r.buffer@ == Seq::<u8>::empty(),
            r.transfer_encoding == TransferEncoding::Absent,
            r.chunk_state == ChunkParseState::ReadingHeader,
            r.body_count == 0,
    {
        HttpDecoder {
            buffer: Vec::new(),
            transfer_encoding: TransferEncoding::Absent,
            chunk_state: ChunkParseState::ReadingHeader,
            body_count: 0,
        }
    }

    /// Appends one read's worth of transport bytes to the decode buffer.
    pub fn feed(&mut self, data: &[u8])
        ensures
            final(self).buffer@ == old(self).buffer@ + data@,
            final(self).transfer_encoding == old(self).transfer_encoding,
            final(self).chunk_state == old(self).chunk_state,
            final(self).body_count == old(self).body_count,
    {
        push_all(&mut self.buffer, data);
    }

    /// One step of the header phase: scan the buffer for the header
    /// terminator, and on finding it either signal a redirect, fail on a
    /// grammar violation, or emit the raw header bytes, select the transfer
    /// encoding, and leave only body bytes in the buffer.
    pub fn process_headers(&mut self) -> (r: Result<HeaderStep, ProtocolFault>)
        ensures
            ({
                let b0 = old(self).buffer@;
                match find_crlfcrlf(b0) {
                    Option::None => r matches Ok(HeaderStep::NeedMore) && *final(self) == *old(self),
                    Option::Some(i) => {
                        let head = b0.take(i);
                        match classify_head(head) {
                            SpecHeaderOutcome::Fault(f) => r matches Err(e) && e == f
                                && *final(self) == *old(self),
                            SpecHeaderOutcome::Redirect(s) => (r matches Ok(
                                HeaderStep::Redirect(sig),
                            ) && sig@ == s && *final(self) == *old(self)),
                            SpecHeaderOutcome::Proceed(te) => (r matches Ok(
                                HeaderStep::Headers(h),
                            ) && h@ == b0.take(i + 4) && final(self).buffer@ == b0.skip(i + 4)
                                && final(self).transfer_encoding == te && final(self).chunk_state
                                == old(self).chunk_state && final(self).body_count == old(self).body_count),
                        }
                    },
                }
            }),
    {
        let ghost b0 = self.buffer@;
        let hit = find_header_end(self.buffer.as_slice());
        let i = match hit {
            None => {
                return Ok(HeaderStep::NeedMore);
            },
            Some(i) => i,
        };
        proof {
            lemma_find_at_some_bounds(b0, crlfcrlf(), 0, i as int);
        }
        let ghost head = b0.take(i as int);
        if i < 12 {
            return Err(ProtocolFault::MalformedStatus);
        }
        let buf = self.buffer.as_slice();
        let c0 = buf[9];
        let c1 = buf[10];
        let c2 = buf[11];
        if !(48 <= c0 && c0 <= 57 && 48 <= c1 && c1 <= 57 && 48 <= c2 && c2 <= 57) {
            proof {
                assert(head.subrange(9, 12)[0] == b0[9]);
                assert(head.subrange(9, 12)[1] == b0[10]);
                assert(head.subrange(9, 12)[2] == b0[11]);
            }
            return Err(ProtocolFault::MalformedStatus);
        }
        let code: u32 = (c0 - 48) as u32 * 100 + (c1 - 48) as u32 * 10 + (c2 - 48) as u32;
        proof {
            let d = head.subrange(9, 12);
            let d2 = head.subrange(9, 11);
            let d1 = head.subrange(9, 10);
            assert(d[0] == b0[9] && d[1] == b0[10] && d[2] == b0[11]);
            assert(d.drop_last() =~= d2);
            assert(d2.drop_last() =~= d1);
            assert(d1.drop_last() =~= Seq::<u8>::empty());
            assert(dec_value(Seq::<u8>::empty()) == 0);
            assert(d1.last() == b0[9] && d2.last() == b0[10] && d.last() == b0[11]);
            assert(dec_value(d1) == (b0[9] - 48));
            assert(dec_value(d2) == dec_value(d1) * 10 + (b0[10] - 48));
            assert(dec_value(d) == dec_value(d2) * 10 + (b0[11] - 48));
            assert(dec_value(d) == code);
            assert(status_of(head) == Option::Some(dec_value(d)));
        }
        let head_slice = vstd::slice::slice_subrange(buf, 0, i);
        proof {
            assert(head_slice@ =~= head);
        }
        let fields: &[u8] = match find_line_end(head_slice) {
            Some(j) => {
                proof {
                    lemma_find_at_some_bounds(head, crlf(), 0, j as int);
                }
                let f = vstd::slice::slice_subrange(head_slice, j + 2, i);
                proof {
                    assert(f@ =~= header_fields(head));
                }
                f
            },
            None => {
                let f = vstd::slice::slice_subrange(head_slice, 0, 0);
                proof {
                    assert(f@ =~= header_fields(head));
                }
                f
            },
        };
        let is_redirect = code == 301 || code == 302 || code == 303 || code == 307 || code == 308;
        if is_redirect {
            let loc_name = location_name();
            if let Some(loc) = find_field(fields, &loc_name) {
                let sig = if code == 301 {
                    RedirectSignal::MovedPermanently(loc)
                } else if code == 302 {
                    RedirectSignal::Found(loc)
                } else if code == 303 {
                    RedirectSignal::SeeOther(loc)
                } else if code == 307 {
                    RedirectSignal::TemporaryRedirect(loc)
                } else {
                    RedirectSignal::PermanentRedirect(loc)
                };
                return Ok(HeaderStep::Redirect(sig));
            }
        }
        let te_name = transfer_encoding_name();
        let te = match find_field(fields, &te_name) {
            Some(v) => {
                let chunked = chunked_value();
                if crate::bytes::eq_ignore_case(v.as_slice(), chunked.as_slice()) {
                    TransferEncoding::Chunked
                } else {
                    TransferEncoding::Unknown
                }
            },
            None => {
                let cl_name = content_length_name();
                match find_field(fields, &cl_name) {
                    Some(v) => match parse_decimal(v.as_slice()) {
                        Some(n) => TransferEncoding::ContentLength(n),
                        None => {
                            return Err(ProtocolFault::BadContentLength);
                        },
                    },
                    None => TransferEncoding::Absent,
                }
            },
        };
        let head_out = copy_subrange(buf, 0, i + 4);
        let tail = drain_buffer(&mut self.buffer, i + 4);
        self.buffer = tail;
        self.transfer_encoding = te;
        proof {
            assert(head_out@ == b0.take(i + 4));
            assert(self.buffer@ == b0.skip(i + 4));
        }
        Ok(HeaderStep::Headers(head_out))
    }

    /// One step of the chunked body phase: parse and forward whatever the
    /// buffer allows. Returns the bytes for the sink and whether the
    /// zero-size terminating chunk was reached.
    pub fn process_chunk(&mut self) -> (r: Result<(Vec<u8>, bool), ProtocolFault>)
        ensures
            ({
                let run = chunk_run(old(self).chunk_state, old(self).buffer@);
                &&& (match r {
                    Ok(p) => run.ok && p.0@ == run.out && p.1 == run.done && final(self).buffer@
                        == run.leftover && final(self).chunk_state == run.state,
                    Err(e) => !run.ok && e == ProtocolFault::BadChunkSize && final(self).buffer@
                        == old(self).buffer@ && final(self).chunk_state == old(self).chunk_state,
                })
                &&& final(self).transfer_encoding == old(self).transfer_encoding
                &&& final(self).body_count == old(self).body_count
            }),
    {
        let buf = vstd::slice::slice_to_vec(self.buffer.as_slice());
        let mut out: Vec<u8> = Vec::new();
        let (leftover, state, done, ok) = chunk_step(self.chunk_state, buf, &mut out);
        if ok {
            self.buffer = leftover;
            self.chunk_state = state;
            Ok((out, done))
        } else {
            Err(ProtocolFault::BadChunkSize)
        }
    }

    /// One step of the content-length body phase: forward everything
    /// buffered, count it, and report whether `n` body bytes have been
    /// forwarded in all.
    pub fn content_length_step(&mut self, n: usize) -> (r: (Vec<u8>, bool))
        ensures
            r.0@ == old(self).buffer@,
            final(self).buffer@ == Seq::<u8>::empty(),
            final(self).body_count == cl_add(
                old(self).body_count as nat,
                old(self).buffer@.len(),
            ),
            r.1 == (final(self).body_count >= n),
            final(self).transfer_encoding == old(self).transfer_encoding,
            final(self).chunk_state == old(self).chunk_state,
    {
        let out = drain_buffer(&mut self.buffer, 0);
        proof {
            assert(old(self).buffer@.skip(0) =~= old(self).buffer@);
        }
        let len = out.len();
        self.body_count = if self.body_count <= usize::MAX - len {
            self.body_count + len
        } else {
            usize::MAX
        };
        let done = self.body_count >= n;
        (out, done)
    }

    /// One step of the unframed body phase (no `Content-Length`, framing
    /// unknown or absent): forward everything buffered; the body ends when
    /// the transport reports end of data.
    pub fn passthrough_step(&mut self, at_eof: bool) -> (r: (Vec<u8>, bool))
        ensures
            r.0@ == old(self).buffer@,
            r.1 == at_eof,
            final(self).buffer@ == Seq::<u8>::empty(),
            final(self).transfer_encoding == old(self).transfer_encoding,
            final(self).chunk_state == old(self).chunk_state,
            final(self).body_count == old(self).body_count,
    {
        let out = drain_buffer(&mut self.buffer, 0);
        proof {
            assert(old(self).buffer@.skip(0) =~= old(self).buffer@);
        }
        (out, at_eof)
    }

    /// One step of the body phase, dispatched on the transfer encoding
    /// derived from the headers. `at_eof` says whether the last transport
    /// read returned zero bytes.
    pub fn body_step(&mut self, at_eof: bool) -> (r: Result<(Vec<u8>, bool), ProtocolFault>)
        ensures
            ({
                match old(self).transfer_encoding {
                    TransferEncoding::ContentLength(n) => r matches Ok(p) && p.0@ == old(self).buffer@ && final(self).buffer@ == Seq::<u8>::empty() && final(self).body_count == cl_add(old(self).body_count as nat, old(self).buffer@.len())
                        && p.1 == (final(self).body_count >= n) && final(self).chunk_state == old(self).chunk_state,
                    TransferEncoding::Chunked => ({
                        let run = chunk_run(old(self).chunk_state, old(self).buffer@);
                        match r {
                            Ok(p) => run.ok && p.0@ == run.out && p.1 == run.done && final(self).buffer@ == run.leftover && final(self).chunk_state == run.state
                                && final(self).body_count == old(self).body_count,
                            Err(e) => !run.ok && e == ProtocolFault::BadChunkSize && final(self).buffer@ == old(self).buffer@,
                        }
                    }),
                    _ => r matches Ok(p) && p.0@ == old(self).buffer@ && p.1 == at_eof && final(self).buffer@ == Seq::<u8>::empty() && final(self).body_count == old(self).body_count && final(self).chunk_state == old(self).chunk_state,
                }
            }),
            final(self).transfer_encoding == old(self).transfer_encoding,
    {
        match self.transfer_encoding {
            TransferEncoding::ContentLength(n) => Ok(self.content_length_step(n)),
            TransferEncoding::Chunked => self.process_chunk(),
            TransferEncoding::Unknown => Ok(self.passthrough_step(at_eof)),
            TransferEncoding::Absent => Ok(self.passthrough_step(at_eof)),
        }
    }
}

/// Saturating byte count: the content-length tally never wraps.
pub open spec fn cl_add(a: nat, b: nat) -> nat {
    if a + b > usize::MAX {
        usize::MAX as nat
    } else {
        a + b
    }
}

/// Result of greedily running the chunked-body machine over one buffer:
/// the bytes owed to the sink, the bytes not yet classifiable, the state to
/// resume from, whether the terminating chunk was seen, and whether the
/// framing was well formed.
pub struct ChunkRun {
    pub out: Seq<u8>,
    pub leftover: Seq<u8>,
    pub state: ChunkParseState,
    pub done: bool,
    pub ok: bool,
}

pub open spec fn chunk_stop(b: Seq<u8>) -> ChunkRun {
    ChunkRun {
        out: Seq::empty(),
        leftover: b,
        state: ChunkParseState::ReadingHeader,
        done: false,
        ok: true,
    }
}

pub open spec fn chunk_fail(b: Seq<u8>) -> ChunkRun {
    ChunkRun {
        out: Seq::empty(),
        leftover: b,
        state: ChunkParseState::ReadingHeader,
        done: false,
        ok: false,
    }
}

/// The chunked-body machine, run greedily over buffer `b` from state `st`.
///
/// In `ReadingBody(rem)` every buffered byte known to be chunk payload is
/// forwarded at once, so memory stays bounded by one read; a chunk's
/// trailing CRLF is discarded once both its bytes are buffered. A
/// chunk-size line must be plain hexadecimal (chunk extensions are
/// rejected); size zero ends the body, and anything after the terminator
/// (trailers are not parsed) is discarded.
pub open spec fn chunk_run(st: ChunkParseState, b: Seq<u8>) -> ChunkRun
    decreases b.len(),
{
    match st {
        ChunkParseState::ReadingBody(rem) => {
            if b.len() >= rem + 2 {
                let r2 = chunk_run(ChunkParseState::ReadingHeader, b.skip(rem + 2));
                ChunkRun {
                    out: b.take(rem as int) + r2.out,
                    leftover: r2.leftover,
                    state: r2.state,
                    done: r2.done,
                    ok: r2.ok,
                }
            } else if b.len() <= rem {
                ChunkRun {
                    out: b,
                    leftover: Seq::empty(),
                    state: ChunkParseState::ReadingBody((rem - b.len()) as usize),
                    done: false,
                    ok: true,
                }
            } else {
                ChunkRun {
                    out: b.take(rem as int),
                    leftover: b.skip(rem as int),
                    state: ChunkParseState::ReadingBody(0),
                    done: false,
                    ok: true,
                }
            }
        },
        _ => match find_crlf(b) {
            Option::None => chunk_stop(b),
            Option::Some(i) => if 0 <= i && i + 2 <= b.len() {
                let line = b.take(i);
                if line.len() == 0 || !all_hex_digits(line) || hex_value(line) > usize::MAX {
                    chunk_fail(b)
                } else if hex_value(line) == 0 {
                    ChunkRun {
                        out: Seq::empty(),
                        leftover: Seq::empty(),
                        state: ChunkParseState::ReadingHeader,
                        done: true,
                        ok: true,
                    }
                } else {
                    chunk_run(
                        ChunkParseState::ReadingBody(hex_value(line) as usize),
                        b.skip(i + 2),
                    )
                }
            } else {
                chunk_fail(b)
            },
        },
    }
}

/// Exec mirror of `chunk_run`: consumes the buffer, appends the sink bytes
/// to `out`, and hands back leftover bytes, resume state, done flag and
/// well-formedness flag.
fn chunk_step(state: ChunkParseState, buffer: Vec<u8>, out: &mut Vec<u8>) -> (r: (
    Vec<u8>,
    ChunkParseState,
    bool,
    bool,
))
    ensures
        ({
            let run = chunk_run(state, buffer@);
            &&& r.3 == run.ok
            &&& run.ok ==> r.0@ == run.leftover && r.1 == run.state && r.2 == run.done && final(out)@ == old(out)@ + run.out
        }),
    decreases buffer@.len(),
{
    match state {
        ChunkParseState::ReadingBody(rem) => {
            let blen = buffer.len();
            if blen >= 2 && blen - 2 >= rem {
                push_all(out, vstd::slice::slice_subrange(buffer.as_slice(), 0, rem));
                proof {
                    assert(buffer@.subrange(0, rem as int) =~= buffer@.take(rem as int));
                }
                let rest = copy_subrange(buffer.as_slice(), rem + 2, blen);
                proof {
                    assert(rest@ =~= buffer@.skip(rem + 2));
                }
                let r = chunk_step(ChunkParseState::ReadingHeader, rest, out);
                proof {
                    let r2 = chunk_run(ChunkParseState::ReadingHeader, buffer@.skip(rem + 2));
                    if r2.ok {
                        assert(old(out)@ + buffer@.take(rem as int) + r2.out =~= old(out)@ + (
                        buffer@.take(rem as int) + r2.out));
                    }
                }
                r
            } else if blen <= rem {
                push_all(out, buffer.as_slice());
                proof {
                    assert(buffer@.subrange(0, blen as int) =~= buffer@);
                }
                (Vec::new(), ChunkParseState::ReadingBody(rem - blen), false, true)
            } else {
                push_all(out, vstd::slice::slice_subrange(buffer.as_slice(), 0, rem));
                proof {
                    assert(buffer@.subrange(0, rem as int) =~= buffer@.take(rem as int));
                }
                let tail = copy_subrange(buffer.as_slice(), rem, blen);
                proof {
                    assert(tail@ =~= buffer@.skip(rem as int));
                }
                (tail, ChunkParseState::ReadingBody(0), false, true)
            }
        },
        _ => {
            let hit = find_line_end(buffer.as_slice());
            match hit {
                None => (buffer, ChunkParseState::ReadingHeader, false, true),
                Some(i) => {
                    proof {
                        lemma_find_at_some_bounds(buffer@, crlf(), 0, i as int);
                        assert(crlf().len() == 2);
                    }
                    let line = vstd::slice::slice_subrange(buffer.as_slice(), 0, i);
                    proof {
                        assert(line@ =~= buffer@.take(i as int));
                    }
                    match parse_hex(line) {
                        None => (buffer, ChunkParseState::ReadingHeader, false, false),
                        Some(size) => {
                            if size == 0 {
                                (Vec::new(), ChunkParseState::ReadingHeader, true, true)
                            } else {
                                let blen = buffer.len();
                                let rest = copy_subrange(buffer.as_slice(), i + 2, blen);
                                proof {
                                    assert(rest@ =~= buffer@.skip(i + 2));
                                }
                                chunk_step(ChunkParseState::ReadingBody(size), rest, out)
                            }
                        },
                    }
                },
            }
        },
    }
}

/// A 302 response with a `Location` is decoded as a Found redirect, whose
/// follow-up resets the method to GET and drops the body; a 307 with the
/// same `Location` is decoded as a Temporary redirect, whose follow-up
/// preserves method and body. (What the follow-up carries is stated by
/// `crate::redirect::follow_redirect` and `SpecRedirect::preserves_method`.)
pub proof fn lemma_redirect_decision(head: Seq<u8>, x: Seq<u8>)
    requires
        field_value(header_fields(head), name_location()) == Option::Some(x),
    ensures
        status_of(head) == Option::Some(302nat) ==> classify_head(head)
            == SpecHeaderOutcome::Redirect(SpecRedirect::Found(x)) && !SpecRedirect::Found(
            x,
        ).preserves_method(),
        status_of(head) == Option::Some(307nat) ==> classify_head(head)
            == SpecHeaderOutcome::Redirect(SpecRedirect::TemporaryRedirect(x))
            && SpecRedirect::TemporaryRedirect(x).preserves_method(),
{
}

/// Both header-expecting states run the machine the same way.
pub proof fn lemma_chunk_run_header_states(b: Seq<u8>)
    ensures
        chunk_run(ChunkParseState::ChunkHeaderParsed, b) == chunk_run(
            ChunkParseState::ReadingHeader,
            b,
        ),
{
}

/// Running the machine over `a + b` is running it over `a`, then over what
/// `a` left behind with `b` appended: the machine never commits to anything
/// that more input could revise.
pub proof fn lemma_chunk_run_compose(st: ChunkParseState, a: Seq<u8>, b: Seq<u8>)
    ensures
        ({
            let r1 = chunk_run(st, a);
            let w = chunk_run(st, a + b);
            &&& (!r1.ok ==> !w.ok)
            &&& (r1.ok && r1.done ==> w.ok && w.done && w.out == r1.out && w.leftover == Seq::<
                u8,
            >::empty() && w.state == r1.state)
            &&& (r1.ok && !r1.done ==> ({
                let r2 = chunk_run(r1.state, r1.leftover + b);
                &&& w.ok == r2.ok
                &&& (r2.ok ==> w.done == r2.done && w.out == r1.out + r2.out && w.leftover
                    == r2.leftover && w.state == r2.state)
            }))
        }),
    decreases a.len(),
{
    let r1 = chunk_run(st, a);
    let w = chunk_run(st, a + b);
    match st {
        ChunkParseState::ReadingBody(rem) => {
            if a.len() >= rem + 2 {
                assert((a + b).take(rem as int) =~= a.take(rem as int));
                assert((a + b).skip(rem + 2) =~= a.skip(rem + 2) + b);
                lemma_chunk_run_compose(ChunkParseState::ReadingHeader, a.skip(rem + 2), b);
                let i1 = chunk_run(ChunkParseState::ReadingHeader, a.skip(rem + 2));
                let iw = chunk_run(ChunkParseState::ReadingHeader, a.skip(rem + 2) + b);
                if i1.ok && i1.done {
                    assert(w.out =~= r1.out);
                } else if i1.ok && !i1.done {
                    let r2 = chunk_run(i1.state, i1.leftover + b);
                    if r2.ok {
                        assert(w.out =~= r1.out + r2.out);
                    }
                }
            } else if a.len() <= rem {
                let rem2 = (rem - a.len()) as usize;
                assert(r1.leftover + b =~= b);
                let r2 = chunk_run(ChunkParseState::ReadingBody(rem2), b);
                if (a + b).len() >= rem + 2 {
                    assert(b.len() >= rem2 + 2);
                    assert((a + b).take(rem as int) =~= a + b.take(rem2 as int));
                    assert((a + b).skip(rem + 2) =~= b.skip(rem2 + 2));
                    if r2.ok {
                        assert(w.out =~= r1.out + r2.out);
                    }
                } else if (a + b).len() <= rem {
                    assert(b.len() <= rem2);
                    assert(w.out =~= r1.out + r2.out);
                } else {
                    assert(b.len() == rem2 + 1);
                    assert((a + b).take(rem as int) =~= a + b.take(rem2 as int));
                    assert((a + b).skip(rem as int) =~= b.skip(rem2 as int));
                    assert(w.out =~= r1.out + r2.out);
                }
            } else {
                assert(a.len() == rem + 1);
                let c = a.skip(rem as int) + b;
                let r2 = chunk_run(ChunkParseState::ReadingBody(0), c);
                if b.len() == 0 {
                    assert(a + b =~= a);
                    assert(c =~= a.skip(rem as int));
                    assert(c.len() == 1);
                    assert(c.take(0) =~= Seq::<u8>::empty());
                    assert(c.skip(0) =~= c);
                    assert(r1.out + r2.out =~= r1.out);
                } else {
                    assert(c.len() >= 2);
                    assert(c.take(0) =~= Seq::<u8>::empty());
                    assert((a + b).take(rem as int) =~= a.take(rem as int));
                    assert((a + b).skip(rem + 2) =~= c.skip(2));
                    if r2.ok {
                        assert(w.out =~= r1.out + r2.out);
                    }
                }
            }
        },
        _ => {
            lemma_chunk_run_header_states(a);
            lemma_chunk_run_header_states(a + b);
            match find_crlf(a) {
                Option::None => {
                    assert(r1.leftover + b =~= a + b);
                    let r2 = chunk_run(ChunkParseState::ReadingHeader, a + b);
                    assert(r1.out + r2.out =~= r2.out);
                },
                Option::Some(i) => {
                    lemma_find_at_some_bounds(a, crlf(), 0, i);
                    lemma_find_at_append(a, b, crlf(), 0);
                    assert(crlf().len() == 2);
                    assert((a + b).take(i) =~= a.take(i));
                    let line = a.take(i);
                    if line.len() == 0 || !all_hex_digits(line) || hex_value(line) > usize::MAX {
                    } else if hex_value(line) == 0 {
                    } else {
                        assert((a + b).skip(i + 2) =~= a.skip(i + 2) + b);
                        lemma_chunk_run_compose(
                            ChunkParseState::ReadingBody(hex_value(line) as usize),
                            a.skip(i + 2),
                            b,
                        );
                    }
                },
            }
        },
    }
}

/// "0" CRLF CRLF: the terminating zero-size chunk with no trailers.
pub open spec fn chunk_terminator() -> Seq<u8> {
    seq![48u8, CR, LF, CR, LF]
}

/// The wire form of one chunk: its size in hexadecimal, CRLF, the payload,
/// CRLF.
pub open spec fn encode_chunk(p: Seq<u8>) -> Seq<u8> {
    crate::bytes::hex_digits_of(p.len()) + crlf() + p + crlf()
}

/// The wire form of a whole chunked body: each chunk in order, then the
/// terminator.
pub open spec fn encode_chunks(ps: Seq<Seq<u8>>) -> Seq<u8>
    decreases ps.len(),
{
    if ps.len() == 0 {
        chunk_terminator()
    } else {
        encode_chunk(ps.first()) + encode_chunks(ps.drop_first())
    }
}

/// A complete well-formed chunked body decodes to exactly the concatenated
/// chunk payloads: no size lines, no CRLF framing, nothing left over, and
/// the terminator ends the transfer.
pub proof fn lemma_chunked_stream_decodes(ps: Seq<Seq<u8>>)
    requires
        forall|k: int| 0 <= k < ps.len() ==> 0 < (#[trigger] ps[k]).len() <= usize::MAX,
    ensures
        ({
            let r = chunk_run(ChunkParseState::ReadingHeader, encode_chunks(ps));
            r.ok && r.done && r.out == ps.flatten() && r.leftover == Seq::<u8>::empty()
        }),
    decreases ps.len(),
{
    if ps.len() == 0 {
        let t = chunk_terminator();
        assert(t.subrange(1, 3) =~= crlf());
        assert forall|k: int| 0 <= k < 1 implies #[trigger] t.subrange(k, k + 2) != crlf() by {
            assert(t.subrange(0, 2)[0] == 48u8);
            assert(crlf()[0] == CR);
        }
        crate::bytes::lemma_find_at_exact(t, crlf(), 0, 1);
        let line = t.take(1);
        assert(line =~= seq![48u8]);
        assert(line.drop_last() =~= Seq::<u8>::empty());
        assert(hex_value(Seq::<u8>::empty()) == 0);
        assert(line.last() == 48u8);
        assert(crate::bytes::hex_digit_val(48u8) == 0);
        assert(hex_value(line) == hex_value(line.drop_last()) * 16 + crate::bytes::hex_digit_val(
            line.last(),
        ));
        assert(hex_value(line) == 0);
        assert(all_hex_digits(line));
        assert(ps.flatten() =~= Seq::<u8>::empty());
    } else {
        let p = ps.first();
        let rest = ps.drop_first();
        let ds = crate::bytes::hex_digits_of(p.len());
        crate::bytes::lemma_hex_digits_of(p.len());
        let b = encode_chunks(ps);
        assert(b =~= ds + crlf() + p + crlf() + encode_chunks(rest));
        assert(b.subrange(ds.len() as int, ds.len() + 2 as int) =~= crlf());
        assert forall|k: int| 0 <= k < ds.len() implies #[trigger] b.subrange(k, k + 2)
            != crlf() by {
            assert(b.subrange(k, k + 2)[0] == b[k]);
            assert(b[k] == ds[k]);
            assert(ds[k] != CR);
            assert(crlf()[0] == CR);
        }
        crate::bytes::lemma_find_at_exact(b, crlf(), 0, ds.len() as int);
        assert(b.take(ds.len() as int) =~= ds);
        assert(hex_value(ds) == p.len());
        assert(0 < p.len() <= usize::MAX);
        let c = b.skip(ds.len() + 2 as int);
        assert(c =~= p + crlf() + encode_chunks(rest));
        assert(c.len() >= p.len() + 2);
        assert(c.take(p.len() as int) =~= p);
        assert(c.skip(p.len() + 2 as int) =~= encode_chunks(rest));
        assert forall|k: int| 0 <= k < rest.len() implies 0 < (#[trigger] rest[k]).len()
            <= usize::MAX by {
            assert(rest[k] == ps[k + 1]);
        }
        lemma_chunked_stream_decodes(rest);
        assert(ps.flatten() == p + rest.flatten());
        let r = chunk_run(ChunkParseState::ReadingHeader, b);
        let inner = chunk_run(ChunkParseState::ReadingBody(p.len() as usize), c);
        assert(r == inner);
        let t2 = chunk_run(ChunkParseState::ReadingHeader, encode_chunks(rest));
        assert(inner.out == c.take(p.len() as int) + t2.out);
        assert(r.out =~= ps.flatten());
    }
}

/// A finished run has consumed its whole buffer and rests in the
/// header-expecting state.
pub proof fn lemma_chunk_run_done_empty(st: ChunkParseState, b: Seq<u8>)
    ensures
        chunk_run(st, b).done ==> chunk_run(st, b).leftover == Seq::<u8>::empty() && chunk_run(
            st,
            b,
        ).state == ChunkParseState::ReadingHeader,
    decreases b.len(),
{
    match st {
        ChunkParseState::ReadingBody(rem) => {
            if b.len() >= rem + 2 {
                lemma_chunk_run_done_empty(ChunkParseState::ReadingHeader, b.skip(rem + 2 as int));
            }
        },
        _ => {
            match find_crlf(b) {
                Option::None => {},
                Option::Some(i) => {
                    if 0 <= i && i + 2 <= b.len() {
                        let line = b.take(i);
                        if line.len() == 0 || !all_hex_digits(line) || hex_value(line)
                            > usize::MAX {
                        } else if hex_value(line) == 0 {
                        } else {
                            lemma_chunk_run_done_empty(
                                ChunkParseState::ReadingBody(hex_value(line) as usize),
                                b.skip(i + 2),
                            );
                        }
                    }
                },
            }
        },
    }
}

/// The machine driven the way the decoder drives it: run on the buffer,
/// and while neither finished nor failed, append the next read's bytes to
/// the leftover and run again.
pub open spec fn chunk_feed(st: ChunkParseState, buf: Seq<u8>, fs: Seq<Seq<u8>>) -> ChunkRun
    decreases fs.len(),
{
    let r = chunk_run(st, buf);
    if fs.len() == 0 || !r.ok || r.done {
        r
    } else {
        let r2 = chunk_feed(r.state, r.leftover + fs.first(), fs.drop_first());
        ChunkRun {
            out: r.out + r2.out,
            leftover: r2.leftover,
            state: r2.state,
            done: r2.done,
            ok: r2.ok,
        }
    }
}

/// Feeding the input piecemeal decodes exactly as feeding it whole.
pub proof fn lemma_chunk_feed_run(st: ChunkParseState, buf: Seq<u8>, fs: Seq<Seq<u8>>)
    ensures
        ({
            let f = chunk_feed(st, buf, fs);
            let w = chunk_run(st, buf + fs.flatten());
            &&& f.ok == w.ok
            &&& (f.ok ==> f.out == w.out && f.done == w.done && f.leftover == w.leftover && f.state
                == w.state)
        }),
    decreases fs.len(),
{
    let r = chunk_run(st, buf);
    let f = chunk_feed(st, buf, fs);
    let w = chunk_run(st, buf + fs.flatten());
    if fs.len() == 0 {
        assert(fs.flatten() =~= Seq::<u8>::empty());
        assert(buf + fs.flatten() =~= buf);
        assert(f == r && w == r);
    } else {
        lemma_chunk_run_compose(st, buf, fs.flatten());
        assert(fs.flatten() == fs.first() + fs.drop_first().flatten());
        if !r.ok {
            assert(f == r);
            assert(!w.ok);
        } else if r.done {
            assert(f == r);
            lemma_chunk_run_done_empty(st, buf);
            assert(w.out == r.out && w.done && w.leftover == Seq::<u8>::empty() && w.state
                == r.state);
        } else {
            let f2 = chunk_feed(r.state, r.leftover + fs.first(), fs.drop_first());
            lemma_chunk_feed_run(r.state, r.leftover + fs.first(), fs.drop_first());
            let w2 = chunk_run(
                r.state,
                (r.leftover + fs.first()) + fs.drop_first().flatten(),
            );
            assert((r.leftover + fs.first()) + fs.drop_first().flatten() =~= r.leftover
                + fs.flatten());
            let r2 = chunk_run(r.state, r.leftover + fs.flatten());
            assert(w2 == r2);
            assert(f.ok == f2.ok && f2.ok == w2.ok);
            assert(w.ok == r2.ok);
            if f.ok {
                assert(f.out == r.out + f2.out);
                assert(f2.out == w2.out);
                assert(w.out == r.out + r2.out);
            }
        }
    }
}

/// For any chunked response delivered in any fragmentation, the bytes the
/// sink receives are exactly the chunk payloads in order; size lines and
/// CRLF framing never reach the sink, and the terminator ends the transfer
/// with nothing left unconsumed.
pub proof fn lemma_chunked_fragmentation(ps: Seq<Seq<u8>>, fs: Seq<Seq<u8>>)
    requires
        forall|k: int| 0 <= k < ps.len() ==> 0 < (#[trigger] ps[k]).len() <= usize::MAX,
        fs.flatten() == encode_chunks(ps),
    ensures
        ({
            let r = chunk_feed(ChunkParseState::ReadingHeader, Seq::empty(), fs);
            r.ok && r.done && r.out == ps.flatten() && r.leftover == Seq::<u8>::empty()
        }),
{
    lemma_chunk_feed_run(ChunkParseState::ReadingHeader, Seq::empty(), fs);
    assert(Seq::<u8>::empty() + fs.flatten() =~= encode_chunks(ps));
    lemma_chunked_stream_decodes(ps);
}

/// The content-length path driven the way the decoder drives it: each
/// entry of `fs` is one read's bytes, forwarded whole and counted by
/// `content_length_step`. Yields the sink bytes and the final tally.
pub open spec fn content_run(count: nat, fs: Seq<Seq<u8>>) -> (Seq<u8>, nat)
    decreases fs.len(),
{
    if fs.len() == 0 {
        (Seq::empty(), count)
    } else {
        let r = content_run(cl_add(count, fs.first().len()), fs.drop_first());
        (fs.first() + r.0, r.1)
    }
}

proof fn lemma_content_run(count: nat, fs: Seq<Seq<u8>>)
    requires
        count <= usize::MAX,
    ensures
        content_run(count, fs).0 == fs.flatten(),
        content_run(count, fs).1 == cl_add(count, fs.flatten().len()),
    decreases fs.len(),
{
    if fs.len() == 0 {
        assert(fs.flatten() =~= Seq::<u8>::empty());
    } else {
        lemma_content_run(cl_add(count, fs.first().len()), fs.drop_first());
        assert(fs.flatten() == fs.first() + fs.drop_first().flatten());
        let r = content_run(cl_add(count, fs.first().len()), fs.drop_first());
        assert(content_run(count, fs).0 == fs.first() + r.0);
        assert(content_run(count, fs).1 == r.1);
        assert(fs.flatten().len() == fs.first().len() + fs.drop_first().flatten().len());
        assert(cl_add(cl_add(count, fs.first().len()), fs.drop_first().flatten().len()) == cl_add(
            count,
            fs.flatten().len(),
        ));
    }
}

/// For a content-length response delivered in any fragmentation totalling
/// `n` bytes, the sink receives exactly those `n` bytes and the tally
/// reaches exactly `n`, so the decoder reports completion.
pub proof fn lemma_content_length_exact(fs: Seq<Seq<u8>>, n: nat)
    requires
        fs.flatten().len() == n,
        n <= usize::MAX,
    ensures
        ({
            let r = content_run(0, fs);
            r.0 == fs.flatten() && r.0.len() == n && r.1 == n
        }),
{
    lemma_content_run(0, fs);
}

} // verus!
