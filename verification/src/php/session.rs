//! One request in the engine: what it reads, and how its output becomes a
//! response.

use vstd::prelude::*;
use vstd::string::*;

use crate::bytes::{push_bytes, push_str, text};
use crate::ipc::FrameKind;
use crate::worker::{frame, frame_with, Progress, Responder};

verus! {

/// A request in the engine.
pub struct Session {
    responder: Responder,
    body: Vec<u8>,
    body_pos: usize,
    status: u16,
    headers: Vec<u8>,
    /// The client was released; later output is swallowed.
    released: bool,
    /// Writing to the client failed.
    broken: bool,
}

/// What a session has come to.
pub struct SessionModel {
    /// The request's id.
    pub id: u32,
    pub progress: Progress,
    /// Frames not yet taken.
    pub collected: Seq<u8>,
    /// The rest of the request's body.
    pub unread: Seq<u8>,
    pub status: u16,
    pub headers: Seq<u8>,
    pub released: bool,
    pub broken: bool,
}

/// A session once its response's head is out.
pub open spec fn headed(s: SessionModel) -> SessionModel {
    if s.progress.headers_sent {
        s
    } else {
        SessionModel {
            progress: Progress { headers_sent: true, ..s.progress },
            collected: s.collected + frame_with(
                FrameKind::ResponseHeaders,
                s.id,
                s.status as u32,
                s.headers,
            ),
            headers: seq![],
            ..s
        }
    }
}

impl View for Session {
    type V = SessionModel;

    closed spec fn view(&self) -> SessionModel {
        SessionModel {
            id: self.responder.id(),
            progress: self.responder.state(),
            collected: self.responder.collected(),
            unread: if self.body_pos <= self.body@.len() {
                self.body@.subrange(self.body_pos as int, self.body@.len() as int)
            } else {
                seq![]
            },
            status: self.status,
            headers: self.headers@,
            released: self.released,
            broken: self.broken,
        }
    }
}

/// The status that the engine may set.
pub open spec fn clamped(status: i32) -> u16 {
    if status < 100 {
        100
    } else if status > 599 {
        599
    } else {
        status as u16
    }
}

impl Session {
    pub fn new(request_id: u32, body: Vec<u8>) -> (r: Self)
        ensures
            r@.id == request_id,
            r@.progress == (Progress {
                headers_sent: false,
                finished: false,
                failed: false,
                gone: false,
            }),
            r@.collected == Seq::<u8>::empty(),
            r@.unread == body@,
            r@.status == 200,
            r@.headers == Seq::<u8>::empty(),
            !r@.released,
            !r@.broken,
    {
        assert(body@.subrange(0, body@.len() as int) =~= body@);
        Session {
            responder: Responder::new(request_id),
            body,
            body_pos: 0,
            status: 200,
            headers: Vec::new(),
            released: false,
            broken: false,
        }
    }

    /// Frames to be written.
    pub fn take(&mut self) -> (r: Vec<u8>)
        ensures
            r@ == old(self)@.collected,
            final(self)@ == (SessionModel { collected: seq![], ..old(self)@ }),
    {
        self.responder.take()
    }

    /// Writing to the client failed.
    pub fn lost(&mut self)
        ensures
            final(self)@ == (SessionModel { broken: true, ..old(self)@ }),
    {
        self.broken = true;
    }

    /// Write the head of the response, once.
    fn send_head(&mut self)
        requires
            old(self)@.headers.len() <= u32::MAX,
        ensures
            final(self)@ == headed(old(self)@),
    {
        if self.responder.progress().headers_sent {
            return;
        }
        let mut headers: Vec<u8> = Vec::new();
        std::mem::swap(&mut headers, &mut self.headers);
        let _ = self.responder.send_headers(self.status, headers.as_slice());
    }

    /// Output of the script. Gives how much of it was taken, and whether so
    /// much is collected that it is to be written now. Less than all is taken
    /// only where the client is gone; the engine then ends the script.
    pub fn ub_write(&mut self, chunk: &[u8]) -> (r: (usize, bool))
        requires
            chunk@.len() <= u32::MAX,
            chunk@.len() > 0 && !old(self)@.released && !old(self)@.broken
                ==> old(self)@.progress.headers_sent && !old(self)@.progress.finished,
        ensures
            ({
                let s = old(self)@;
                if chunk@.len() == 0 || s.broken && !s.released {
                    r == (0usize, false) && final(self)@ == s
                } else if s.released {
                    r.0 == chunk@.len() && !r.1 && final(self)@ == s
                } else if s.progress.gone {
                    r == (0usize, false) && final(self)@ == (SessionModel { broken: true, ..s })
                } else {
                    let out = s.collected + frame(FrameKind::ResponseBody, s.id, chunk@);
                    &&& r.0 == chunk@.len()
                    &&& r.1 == (out.len() >= crate::worker::FLUSH_THRESHOLD)
                    &&& final(self)@ == (SessionModel { collected: out, ..s })
                }
            }),
    {
        if chunk.len() == 0 {
            return (0, false);
        }
        if self.released {
            return (chunk.len(), false);
        }
        if self.broken {
            return (0, false);
        }
        match self.responder.send_body(chunk) {
            Ok(due) => (chunk.len(), due),
            Err(_) => {
                self.broken = true;
                (0, false)
            },
        }
    }

    /// The script flushes its output: it goes to the client now, after the head
    /// of the response, which stays open. Tells whether there is something to
    /// write.
    pub fn flush(&mut self) -> (r: bool)
        requires
            old(self)@.headers.len() <= u32::MAX,
        ensures
            ({
                let s = old(self)@;
                let h = headed(s);
                if s.released || s.broken {
                    !r && final(self)@ == s
                } else if s.progress.gone {
                    !r && final(self)@ == (SessionModel { broken: true, ..h })
                } else {
                    r && final(self)@ == (SessionModel {
                        collected: h.collected + frame(FrameKind::Flush, s.id, seq![]),
                        ..h
                    })
                }
            }),
    {
        if self.released || self.broken {
            return false;
        }
        self.send_head();
        match self.responder.flush() {
            Ok(_) => true,
            Err(_) => {
                self.broken = true;
                false
            },
        }
    }

    /// The engine begins the head of the response.
    pub fn headers_begin(&mut self, status: i32)
        ensures
            final(self)@ == (SessionModel {
                status: clamped(status),
                headers: seq![],
                ..old(self)@
            }),
    {
        self.status = if status < 100 {
            100
        } else if status > 599 {
            599
        } else {
            status as u16
        };
        self.headers = Vec::new();
        assert(self.headers@ =~= seq![]);
    }

    /// One line of the head of the response.
    pub fn header_line(&mut self, line: &[u8])
        ensures
            final(self)@ == (SessionModel {
                headers: old(self)@.headers + line@ + text("\r\n"),
                ..old(self)@
            }),
    {
        push_bytes(&mut self.headers, line);
        push_str(&mut self.headers, "\r\n");
    }

    /// The head of the response is complete.
    pub fn headers_end(&mut self)
        requires
            old(self)@.headers.len() <= u32::MAX,
        ensures
            final(self)@ == if old(self)@.released {
                old(self)@
            } else {
                headed(old(self)@)
            },
    {
        if !self.released {
            self.send_head();
        }
    }

    /// The next bytes of the request's body, at most `count`.
    pub fn read_post(&mut self, count: usize) -> (r: Vec<u8>)
        ensures
            ({
                let s = old(self)@;
                let n = if count < s.unread.len() {
                    count as int
                } else {
                    s.unread.len() as int
                };
                &&& r@ == s.unread.subrange(0, n)
                &&& final(self)@ == (SessionModel {
                    unread: s.unread.subrange(n, s.unread.len() as int),
                    ..s
                })
            }),
    {
        let mut out: Vec<u8> = Vec::new();
        let len: usize = self.body.len();
        let from: usize = if self.body_pos <= len {
            self.body_pos
        } else {
            len
        };
        let rest: usize = len - from;
        let n: usize = if count < rest {
            count
        } else {
            rest
        };
        let ghost before = self@.unread;
        let piece = vstd::slice::slice_subrange(self.body.as_slice(), from, from + n);
        push_bytes(&mut out, piece);
        proof {
            assert(before =~= self.body@.subrange(from as int, len as int));
            assert(out@ =~= before.subrange(0, n as int));
        }
        self.body_pos = from + n;
        assert(self@.unread =~= before.subrange(n as int, before.len() as int));
        out
    }

    /// The script releases its client and goes on: what is collected leaves at
    /// once, later output is swallowed. Gives what is to be written.
    pub fn finish_request(&mut self) -> (r: Option<Vec<u8>>)
        requires
            old(self)@.headers.len() <= u32::MAX,
        ensures
            ({
                let s = old(self)@;
                let h = headed(s);
                if s.released {
                    r is None && final(self)@ == s
                } else {
                    &&& r matches Some(out) && out@ == if h.progress.finished {
                        h.collected
                    } else {
                        h.collected + frame(FrameKind::End, s.id, seq![])
                    }
                    &&& final(self)@ == (SessionModel {
                        progress: Progress { finished: true, ..h.progress },
                        collected: seq![],
                        released: true,
                        ..h
                    })
                }
            }),
    {
        if self.released {
            return None;
        }
        self.send_head();
        self.released = true;
        match self.responder.finish_now() {
            Ok(out) => Some(out),
            Err(_) => Some(Vec::new()),
        }
    }

    /// The engine is done with the request, with this status, which is negative
    /// where it failed: complete the response or fail it.
    pub fn conclude(self, engine: i32) -> (r: Responder)
        requires
            self@.headers.len() <= u32::MAX,
        ensures
            r.id() == self@.id,
            concluded(self@, engine, r.state(), r.collected()),
    {
        let mut responder = self.responder;
        if engine < 0 {
            proof {
                reveal_strlit("php engine failure");
                vstd::utf8::is_ascii_chars_encode_utf8("php engine failure"@);
            }
            let _ = responder.error("php engine failure");
            return responder;
        }
        if !responder.progress().headers_sent {
            let low: u16 = (engine % 65536) as u16;
            let status: u16 = if low > self.status {
                low
            } else {
                self.status
            };
            let _ = responder.send_headers(status, self.headers.as_slice());
        }
        let _ = responder.finish();
        responder
    }
}

/// What the engine's end makes of a response.
pub open spec fn concluded(s: SessionModel, engine: i32, p: Progress, collected: Seq<u8>) -> bool {
    if engine < 0 {
        &&& p == (Progress { finished: true, failed: true, ..s.progress })
        &&& collected == s.collected + frame(FrameKind::Error, s.id, text("php engine failure"))
    } else {
        let low = (engine % 65536) as u16;
        let status = if low > s.status {
            low
        } else {
            s.status
        };
        let h = headed(SessionModel { status, ..s });
        &&& p == (Progress { finished: true, ..h.progress })
        &&& collected == if h.progress.finished {
            h.collected
        } else {
            h.collected + frame(FrameKind::End, s.id, seq![])
        }
    }
}

} // verus!
