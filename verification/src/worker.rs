//! Worker side of the protocol, blocking profile: one request at a time.
//!
//! Requests come off the shared work socket; a response leaves on the worker's
//! own stream, its frames collected into one write. The types here hold what
//! is said and decided; whoever runs the loop reads and writes.

pub mod exchange;

use vstd::prelude::*;
use vstd::string::*;

use crate::bytes::text;
use crate::ipc::frame::{frame_bytes, header_of, plain_header, push_frame};
use crate::ipc::hello::{hello_ack_of, hello_bytes};
use crate::ipc::{
    error_text, BwpError, FrameHeader, FrameKind, Hello, HelloAck, BWP_VERSION, FRAME_HEADER_LEN,
    PONG_BUSY, PONG_IDLE,
};
use crate::json::{json_list, json_text, quote};
use crate::text::{cat2, decimal};

verus! {

/// Largest datagram a worker accepts.
pub const MAX_DGRAM: usize = 262144;

/// Collected output beyond which a response is written early.
pub const FLUSH_THRESHOLD: usize = 262144;

/// Why a worker cannot go on.
#[derive(Debug, PartialEq, Eq)]
pub enum WorkerError {
    /// Reading or writing failed; what the system says about it.
    Io(String),
    Bwp(BwpError),
    /// The router closed the channel, or the client of the request is gone.
    Closed,
}

/// What an error says.
pub open spec fn worker_error_text(e: WorkerError) -> Seq<char> {
    match e {
        WorkerError::Io(s) => "io: "@ + s@,
        WorkerError::Bwp(e) => "protocol: "@ + error_text(e),
        WorkerError::Closed => "router closed the channel"@,
    }
}

impl WorkerError {
    /// The error in words.
    pub fn message(&self) -> (r: String)
        ensures
            r@ == worker_error_text(*self),
    {
        match self {
            WorkerError::Io(s) => cat2("io: ", s.as_str()),
            WorkerError::Bwp(e) => cat2("protocol: ", e.message().as_str()),
            WorkerError::Closed => "router closed the channel".to_owned(),
        }
    }
}

/// One frame, whole.
pub open spec fn frame(kind: FrameKind, id: u32, payload: Seq<u8>) -> Seq<u8> {
    frame_bytes(plain_header(kind, id, payload.len() as u32), payload)
}

/// One frame, whole, with a word beside its payload.
pub open spec fn frame_with(kind: FrameKind, id: u32, aux: u32, payload: Seq<u8>) -> Seq<u8> {
    frame_bytes(FrameHeader { aux, ..plain_header(kind, id, payload.len() as u32) }, payload)
}

/// Append one frame.
pub fn add_frame(out: &mut Vec<u8>, kind: FrameKind, id: u32, payload: &[u8])
    requires
        payload@.len() <= u32::MAX,
    ensures
        final(out)@ == old(out)@ + frame(kind, id, payload@),
{
    push_frame(out, &FrameHeader::new(kind, id, payload.len() as u32), payload);
}

/// Append one frame, with a word beside its payload.
pub fn add_frame_with(out: &mut Vec<u8>, kind: FrameKind, id: u32, aux: u32, payload: &[u8])
    requires
        payload@.len() <= u32::MAX,
    ensures
        final(out)@ == old(out)@ + frame_with(kind, id, aux, payload@),
{
    let mut h = FrameHeader::new(kind, id, payload.len() as u32);
    h.aux = aux;
    push_frame(out, &h, payload);
}

/// Append one frame without a payload.
pub fn add_bare(out: &mut Vec<u8>, kind: FrameKind, id: u32)
    ensures
        final(out)@ == old(out)@ + frame(kind, id, seq![]),
{
    let none: Vec<u8> = Vec::new();
    assert(none@ =~= seq![]);
    add_frame(out, kind, id, none.as_slice());
}

/// The frame that opens the conversation with the router.
pub fn hello_frame(pid: u32, concurrency: u32, capabilities: u32) -> (r: Vec<u8>)
    ensures
        r@ == frame(
            FrameKind::Hello,
            0,
            hello_bytes(Hello { version: BWP_VERSION, pid, concurrency, capabilities }),
        ),
{
    let hello = Hello { version: BWP_VERSION, pid, concurrency, capabilities };
    let payload = hello.encode();
    let mut out: Vec<u8> = Vec::new();
    add_frame(&mut out, FrameKind::Hello, 0, payload.as_slice());
    assert(out@ =~= frame(FrameKind::Hello, 0, payload@));
    out
}

/// What the router's answer to a greeting says: the concurrency it grants.
pub open spec fn ack_answer(kind: FrameKind, payload: Seq<u8>) -> Result<u32, BwpError> {
    if kind != FrameKind::HelloAck {
        Err(BwpError::BadMagic)
    } else {
        match hello_ack_of(payload) {
            Err(e) => Err(e),
            Ok(a) => if a.version != BWP_VERSION {
                Err(BwpError::UnsupportedVersion(a.version))
            } else {
                Ok(a.concurrency)
            },
        }
    }
}

/// Read the router's answer to a greeting; gives the concurrency it grants.
pub fn read_ack(header: &FrameHeader, payload: &[u8]) -> (r: Result<u32, BwpError>)
    ensures
        r == ack_answer(header.kind, payload@),
{
    if header.kind != FrameKind::HelloAck {
        return Err(BwpError::BadMagic);
    }
    match HelloAck::decode(payload) {
        Err(e) => Err(e),
        Ok(a) => if a.version != BWP_VERSION {
            Err(BwpError::UnsupportedVersion(a.version))
        } else {
            Ok(a.concurrency)
        },
    }
}

/// What a datagram off the work socket asks for.
#[derive(Debug, Clone, Copy, PartialEq, Eq, Structural)]
pub enum Work {
    /// Nothing: too short, cut off, or not meant for a worker.
    Skip,
    /// To finish what is claimed and exit.
    Retire,
    /// To serve a request; its payload stands in the datagram from the end of
    /// the header up to `end`.
    Serve { id: u32, flags: u8, end: usize },
}

/// What a datagram asks for; an error where it begins with no kind of frame.
pub open spec fn work_of(dgram: Seq<u8>) -> Result<Work, BwpError> {
    if dgram.len() < FRAME_HEADER_LEN {
        Ok(Work::Skip)
    } else {
        match header_of(dgram.subrange(0, 16)) {
            Err(e) => Err(e),
            Ok(h) => Ok(
                if h.kind == FrameKind::Retire {
                    Work::Retire
                } else if h.kind == FrameKind::Request && FRAME_HEADER_LEN + h.payload_len
                    <= dgram.len() {
                    Work::Serve {
                        id: h.request_id,
                        flags: h.flags,
                        end: (FRAME_HEADER_LEN + h.payload_len) as usize,
                    }
                } else {
                    Work::Skip
                },
            ),
        }
    }
}

/// The first sixteen bytes.
pub fn head_of(bytes: &[u8]) -> (r: [u8; FRAME_HEADER_LEN])
    requires
        bytes@.len() >= FRAME_HEADER_LEN,
    ensures
        r@ == bytes@.subrange(0, 16),
{
    let r = [
        bytes[0],
        bytes[1],
        bytes[2],
        bytes[3],
        bytes[4],
        bytes[5],
        bytes[6],
        bytes[7],
        bytes[8],
        bytes[9],
        bytes[10],
        bytes[11],
        bytes[12],
        bytes[13],
        bytes[14],
        bytes[15],
    ];
    assert(r@ =~= bytes@.subrange(0, 16));
    r
}

/// What the bytes of a stream begin with: a whole frame and how long it is;
/// none where it has not arrived yet.
pub open spec fn leading_frame(s: Seq<u8>) -> Result<Option<(FrameHeader, int)>, BwpError> {
    if s.len() < FRAME_HEADER_LEN {
        Ok(None)
    } else {
        match header_of(s.subrange(0, 16)) {
            Err(e) => Err(e),
            Ok(h) => if s.len() < FRAME_HEADER_LEN + h.payload_len {
                Ok(None)
            } else {
                Ok(Some((h, FRAME_HEADER_LEN + h.payload_len)))
            },
        }
    }
}

/// Take the first frame off what has arrived on a stream, if it is whole.
pub fn next_frame(inbox: &mut Vec<u8>) -> (r: Result<Option<(FrameHeader, Vec<u8>)>, BwpError>)
    ensures
        match leading_frame(old(inbox)@) {
            Err(e) => r == Err::<Option<(FrameHeader, Vec<u8>)>, BwpError>(e) && final(inbox)@
                == old(inbox)@,
            Ok(None) => r matches Ok(None) && final(inbox)@ == old(inbox)@,
            Ok(Some((h, n))) => {
                &&& r matches Ok(Some((header, payload))) && header == h && payload@ == old(
                    inbox,
                )@.subrange(16, n)
                &&& final(inbox)@ == old(inbox)@.subrange(n, old(inbox)@.len() as int)
            },
        },
{
    if inbox.len() < FRAME_HEADER_LEN {
        return Ok(None);
    }
    let header = match FrameHeader::decode(&head_of(inbox.as_slice())) {
        Ok(h) => h,
        Err(e) => {
            return Err(e);
        },
    };
    let n: usize = header.payload_len as usize;
    if inbox.len() - FRAME_HEADER_LEN < n {
        return Ok(None);
    }
    let mut payload = inbox.split_off(FRAME_HEADER_LEN);
    let rest = payload.split_off(n);
    assert(payload@ =~= old(inbox)@.subrange(16, 16 + n));
    assert(rest@ =~= old(inbox)@.subrange(16 + n, old(inbox)@.len() as int));
    *inbox = rest;
    Ok(Some((header, payload)))
}

/// The frame that tells the router whose a request is.
pub fn claim_frame(id: u32) -> (r: Vec<u8>)
    ensures
        r@ == frame(FrameKind::Claim, id, seq![]),
{
    let mut out: Vec<u8> = Vec::new();
    add_bare(&mut out, FrameKind::Claim, id);
    assert(out@ =~= frame(FrameKind::Claim, id, seq![]));
    out
}

/// Read a datagram, given the bytes that were received.
pub fn read_work(dgram: &[u8]) -> (r: Result<Work, BwpError>)
    ensures
        r == work_of(dgram@),
{
    if dgram.len() < FRAME_HEADER_LEN {
        return Ok(Work::Skip);
    }
    let head = head_of(dgram);
    match FrameHeader::decode(&head) {
        Err(e) => Err(e),
        Ok(h) => {
            if h.kind == FrameKind::Retire {
                return Ok(Work::Retire);
            }
            if h.kind != FrameKind::Request {
                return Ok(Work::Skip);
            }
            let have: u64 = (dgram.len() - FRAME_HEADER_LEN) as u64;
            if h.payload_len as u64 > have {
                return Ok(Work::Skip);
            }
            let end: usize = FRAME_HEADER_LEN + h.payload_len as usize;
            Ok(Work::Serve { id: h.request_id, flags: h.flags, end })
        },
    }
}

/// How far the response to a request has come.
#[derive(Debug, Clone, Copy, PartialEq, Eq, Structural)]
pub struct Progress {
    /// The head of the response is written.
    pub headers_sent: bool,
    /// The client's response is complete, or has failed.
    pub finished: bool,
    /// The request has failed, which also ends the task.
    pub failed: bool,
    /// The client is gone.
    pub gone: bool,
}

/// The response to one request, as the runtime produces it: collects frames
/// until they are taken to be written.
pub struct Responder {
    out: Vec<u8>,
    request_id: u32,
    progress: Progress,
}

impl Responder {
    /// The frames not yet taken.
    pub closed spec fn collected(self) -> Seq<u8> {
        self.out@
    }

    pub closed spec fn id(self) -> u32 {
        self.request_id
    }

    pub closed spec fn state(self) -> Progress {
        self.progress
    }

    pub fn new(request_id: u32) -> (r: Self)
        ensures
            r.collected() == Seq::<u8>::empty(),
            r.id() == request_id,
            r.state() == (Progress {
                headers_sent: false,
                finished: false,
                failed: false,
                gone: false,
            }),
    {
        Responder {
            out: Vec::new(),
            request_id,
            progress: Progress {
                headers_sent: false,
                finished: false,
                failed: false,
                gone: false,
            },
        }
    }

    /// How far the response has come.
    pub fn progress(&self) -> (r: Progress)
        ensures
            r == self.state(),
    {
        self.progress
    }

    /// The head of the response. `headers` is a serialized block of
    /// `name: value` lines, each ended by CR LF.
    pub fn send_headers(&mut self, status: u16, headers: &[u8]) -> (r: Result<(), WorkerError>)
        requires
            !old(self).state().headers_sent,
            headers@.len() <= u32::MAX,
        ensures
            r is Ok,
            final(self).id() == old(self).id(),
            final(self).state() == (Progress { headers_sent: true, ..old(self).state() }),
            final(self).collected() == old(self).collected() + frame_with(
                FrameKind::ResponseHeaders,
                old(self).id(),
                status as u32,
                headers@,
            ),
    {
        add_frame_with(
            &mut self.out,
            FrameKind::ResponseHeaders,
            self.request_id,
            status as u32,
            headers,
        );
        self.progress.headers_sent = true;
        Ok(())
    }

    /// A piece of the body. Tells whether so much has been collected that it
    /// is to be written now; fails where the client is gone.
    pub fn send_body(&mut self, chunk: &[u8]) -> (r: Result<bool, WorkerError>)
        requires
            old(self).state().headers_sent,
            !old(self).state().finished,
            chunk@.len() <= u32::MAX,
        ensures
            final(self).id() == old(self).id(),
            final(self).state() == old(self).state(),
            old(self).state().gone ==> r == Err::<bool, WorkerError>(WorkerError::Closed)
                && final(self).collected() == old(self).collected(),
            !old(self).state().gone ==> {
                &&& final(self).collected() == old(self).collected() + frame(
                    FrameKind::ResponseBody,
                    old(self).id(),
                    chunk@,
                )
                &&& r == Ok::<bool, WorkerError>(
                    final(self).collected().len() >= FLUSH_THRESHOLD,
                )
            },
    {
        if self.progress.gone {
            return Err(WorkerError::Closed);
        }
        add_frame(&mut self.out, FrameKind::ResponseBody, self.request_id, chunk);
        Ok(self.out.len() >= FLUSH_THRESHOLD)
    }

    /// Have the router pass on what it holds and keep the response open; what
    /// is collected is to be written now. Fails where the client is gone.
    pub fn flush(&mut self) -> (r: Result<(), WorkerError>)
        ensures
            final(self).id() == old(self).id(),
            final(self).state() == old(self).state(),
            old(self).state().gone ==> r == Err::<(), WorkerError>(WorkerError::Closed)
                && final(self).collected() == old(self).collected(),
            !old(self).state().gone ==> r is Ok && final(self).collected() == old(
                self,
            ).collected() + frame(FrameKind::Flush, old(self).id(), seq![]),
    {
        if self.progress.gone {
            return Err(WorkerError::Closed);
        }
        add_bare(&mut self.out, FrameKind::Flush, self.request_id);
        Ok(())
    }

    /// Complete the response; does nothing where it is complete. Its frames
    /// leave with the rest once the handler returns.
    pub fn finish(&mut self) -> (r: Result<(), WorkerError>)
        ensures
            r is Ok,
            final(self).id() == old(self).id(),
            final(self).state() == (Progress { finished: true, ..old(self).state() }),
            final(self).collected() == if old(self).state().finished {
                old(self).collected()
            } else {
                old(self).collected() + frame(FrameKind::End, old(self).id(), seq![])
            },
    {
        if self.progress.finished {
            return Ok(());
        }
        add_bare(&mut self.out, FrameKind::End, self.request_id);
        self.progress.finished = true;
        Ok(())
    }

    /// Complete the response and take what is collected, to be written at
    /// once: the client is released while the task goes on.
    pub fn finish_now(&mut self) -> (r: Result<Vec<u8>, WorkerError>)
        ensures
            final(self).id() == old(self).id(),
            final(self).state() == (Progress { finished: true, ..old(self).state() }),
            final(self).collected() == Seq::<u8>::empty(),
            r matches Ok(out) && out@ == if old(self).state().finished {
                old(self).collected()
            } else {
                old(self).collected() + frame(FrameKind::End, old(self).id(), seq![])
            },
    {
        let _ = self.finish();
        Ok(self.take())
    }

    /// Fail the request.
    pub fn error(&mut self, message: &str) -> (r: Result<(), WorkerError>)
        requires
            text(message).len() <= u32::MAX,
        ensures
            r is Ok,
            final(self).id() == old(self).id(),
            final(self).state() == (Progress { finished: true, failed: true, ..old(self).state() }),
            final(self).collected() == old(self).collected() + frame(
                FrameKind::Error,
                old(self).id(),
                text(message),
            ),
    {
        add_frame(&mut self.out, FrameKind::Error, self.request_id, message.as_bytes());
        self.progress.finished = true;
        self.progress.failed = true;
        Ok(())
    }

    /// Take what is collected, to be written.
    pub fn take(&mut self) -> (r: Vec<u8>)
        ensures
            r@ == old(self).collected(),
            final(self).collected() == Seq::<u8>::empty(),
            final(self).id() == old(self).id(),
            final(self).state() == old(self).state(),
    {
        let mut r: Vec<u8> = Vec::new();
        std::mem::swap(&mut r, &mut self.out);
        r
    }

    /// A frame that the router sent meanwhile: `Abort` of this request means
    /// that its client is gone, and a probe is answered.
    pub fn hear(&mut self, header: &FrameHeader)
        ensures
            final(self).id() == old(self).id(),
            final(self).state() == heard(old(self).state(), old(self).id(), *header),
            final(self).collected() == old(self).collected() + if header.kind == FrameKind::Ping {
                frame_with(
                    FrameKind::Pong,
                    header.request_id,
                    probe_answer(header.request_id == old(self).id()),
                    seq![],
                )
            } else {
                seq![]
            },
    {
        if header.kind == FrameKind::Abort && header.request_id == self.request_id {
            self.progress.gone = true;
        }
        if header.kind == FrameKind::Ping {
            let status: u32 = if header.request_id == self.request_id {
                PONG_BUSY
            } else {
                PONG_IDLE
            };
            let none: Vec<u8> = Vec::new();
            assert(none@ =~= seq![]);
            add_frame_with(&mut self.out, FrameKind::Pong, header.request_id, status, none.as_slice());
        } else {
            assert(old(self).out@ + seq![] =~= self.out@);
        }
    }

    /// The handler has returned, with success or not: complete the response or
    /// fail it, and end the task.
    pub fn settle(&mut self, success: bool)
        ensures
            final(self).id() == old(self).id(),
            final(self).state() == (Progress {
                finished: true,
                failed: old(self).state().failed || (!success && !old(self).state().finished),
                ..old(self).state()
            }),
            final(self).collected() == old(self).collected() + settlement(
                old(self).state(),
                old(self).id(),
                success,
            ),
    {
        proof {
            lemma_failure_text();
        }
        let ghost was = self.out@;
        if success {
            let _ = self.finish();
        } else if !self.progress.finished {
            let _ = self.error("handler failed");
        }
        if !self.progress.failed {
            add_bare(&mut self.out, FrameKind::Done, self.request_id);
        }
        assert(self.out@ =~= was + settlement(old(self).progress, self.request_id, success));
    }
}

/// The state of a probed task.
pub open spec fn probe_answer(busy: bool) -> u32 {
    if busy {
        PONG_BUSY
    } else {
        PONG_IDLE
    }
}

/// How far a response has come once the router has sent a frame.
pub open spec fn heard(p: Progress, id: u32, header: FrameHeader) -> Progress {
    if header.kind == FrameKind::Abort && header.request_id == id {
        Progress { gone: true, ..p }
    } else {
        p
    }
}

/// What is written once the handler has returned.
pub open spec fn settlement(p: Progress, id: u32, success: bool) -> Seq<u8> {
    let failing = !success && !p.finished;
    let first = if failing {
        frame(FrameKind::Error, id, text("handler failed"))
    } else if p.finished {
        seq![]
    } else {
        frame(FrameKind::End, id, seq![])
    };
    if failing || p.failed {
        first
    } else {
        first + frame(FrameKind::Done, id, seq![])
    }
}

proof fn lemma_failure_text()
    ensures
        text("handler failed").len() <= u32::MAX,
{
    reveal_strlit("handler failed");
    vstd::utf8::is_ascii_chars_encode_utf8("handler failed"@);
}

/// Counts served requests towards the limit after which a worker exits; none
/// where the limit is zero.
pub struct Recycle {
    max_requests: u64,
    served: u64,
}

/// Whether a worker exits after its `served`-th response.
pub open spec fn worn_out(max_requests: u64, served: int) -> bool {
    max_requests > 0 && served >= max_requests
}

impl Recycle {
    pub closed spec fn limit(self) -> u64 {
        self.max_requests
    }

    pub closed spec fn count(self) -> u64 {
        self.served
    }

    pub fn new(max_requests: u64) -> (r: Self)
        ensures
            r.limit() == max_requests,
            r.count() == 0,
    {
        Recycle { max_requests, served: 0 }
    }

    /// One more response is out; tells whether the worker exits.
    pub fn served(&mut self) -> (r: bool)
        ensures
            final(self).limit() == old(self).limit(),
            final(self).count() == if old(self).count() < u64::MAX {
                (old(self).count() + 1) as u64
            } else {
                u64::MAX
            },
            r == worn_out(old(self).limit(), old(self).count() + 1),
    {
        if self.served < u64::MAX {
            self.served += 1;
        }
        self.max_requests > 0 && self.served >= self.max_requests
    }
}

/// What a module says of itself.
pub struct Describe {
    pub runtime: &'static str,
    pub version: String,
    /// Extensions that are sources of this runtime: the router does not serve
    /// them as static files.
    pub source_extensions: &'static [&'static str],
}

/// The texts of a list.
pub open spec fn str_views(s: Seq<&'static str>) -> Seq<Seq<char>> {
    s.map_values(|x: &'static str| x@)
}

/// The description as a JSON object.
pub open spec fn describe_text(d: Describe) -> Seq<char> {
    "{\"bwp\":"@ + crate::ipc::shown(BWP_VERSION as int) + ",\"runtime\":"@ + json_text(d.runtime@)
        + ",\"source_extensions\":["@ + json_list(str_views(d.source_extensions@))
        + "],\"version\":"@ + json_text(d.version@) + "}"@
}

impl Describe {
    /// The line that answers `--describe`.
    pub fn to_json(&self) -> (r: String)
        ensures
            r@ == describe_text(*self),
    {
        let mut list = String::new();
        let ghost all = str_views(self.source_extensions@);
        let mut i: usize = 0;
        assert(list@ =~= json_list(all.take(0)));
        while i < self.source_extensions.len()
            invariant
                i <= self.source_extensions@.len(),
                all == str_views(self.source_extensions@),
                list@ == json_list(all.take(i as int)),
            decreases self.source_extensions@.len() - i,
        {
            proof {
                assert(all.take(i + 1).drop_last() =~= all.take(i as int));
                assert(all.take(i + 1).last() == all[i as int]);
            }
            let ghost was = list@;
            let one = quote(self.source_extensions[i]);
            if i > 0 {
                list.append(",");
                proof {
                    reveal_strlit(",");
                    assert(","@ =~= seq![',']);
                }
            }
            list.append(one.as_str());
            proof {
                if i == 0 {
                    assert(was.len() == 0);
                    assert(list@ =~= one@);
                    assert(all.take(1)[0] == all[0]);
                }
            }
            i += 1;
        }
        assert(all.take(i as int) =~= all);
        let mut out = "{\"bwp\":".to_owned();
        out.append(decimal(BWP_VERSION as u64).as_str());
        out.append(",\"runtime\":");
        out.append(quote(self.runtime).as_str());
        out.append(",\"source_extensions\":[");
        out.append(list.as_str());
        out.append("],\"version\":");
        out.append(quote(self.version.as_str()).as_str());
        out.append("}");
        out
    }
}

} // verus!
