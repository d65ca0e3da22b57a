//! Hello and HelloAck payloads: the capability negotiation.

use vstd::prelude::*;

use crate::bytes::{le32, le_bytes, lemma_le32, read_u32, u32_at};
use crate::ipc::BwpError;

verus! {

/// Declared in Hello: no fixed limit.
pub const CONCURRENCY_UNBOUNDED: u32 = 0;

pub const HELLO_PAYLOAD_LEN: usize = 20;

pub const HELLO_ACK_PAYLOAD_LEN: usize = 8;

/// Hello frame payload, worker to router.
#[derive(Debug, Clone, Copy, PartialEq, Eq, Structural)]
pub struct Hello {
    pub version: u32,
    /// Worker process id.
    pub pid: u32,
    /// Requests the worker can process at once: 1 for blocking runtimes,
    /// N for event loops, CONCURRENCY_UNBOUNDED for whatever arrives.
    pub concurrency: u32,
    /// CAP_* bit set.
    pub capabilities: u32,
}

/// HelloAck frame payload, router to worker.
#[derive(Debug, Clone, Copy, PartialEq, Eq, Structural)]
pub struct HelloAck {
    pub version: u32,
    /// Effective concurrency: the declared value capped by configuration.
    pub concurrency: u32,
}

/// Magic prefix of the Hello payload: `BWP` and a zero byte.
pub open spec fn magic() -> Seq<u8> {
    seq![66u8, 87u8, 80u8, 0u8]
}

pub open spec fn hello_bytes(h: Hello) -> Seq<u8> {
    magic() + le32(h.version) + le32(h.pid) + le32(h.concurrency) + le32(h.capabilities)
}

/// What a Hello payload says; bytes past the twentieth do not count.
pub open spec fn hello_of(payload: Seq<u8>) -> Result<Hello, BwpError> {
    if payload.len() < HELLO_PAYLOAD_LEN {
        Err(
            BwpError::Truncated { expected: HELLO_PAYLOAD_LEN, actual: payload.len() as usize },
        )
    } else if payload.subrange(0, 4) != magic() {
        Err(BwpError::BadMagic)
    } else {
        Ok(
            Hello {
                version: u32_at(payload, 4),
                pid: u32_at(payload, 8),
                concurrency: u32_at(payload, 12),
                capabilities: u32_at(payload, 16),
            },
        )
    }
}

pub open spec fn hello_ack_bytes(h: HelloAck) -> Seq<u8> {
    le32(h.version) + le32(h.concurrency)
}

/// What a HelloAck payload says; bytes past the eighth do not count.
pub open spec fn hello_ack_of(payload: Seq<u8>) -> Result<HelloAck, BwpError> {
    if payload.len() < HELLO_ACK_PAYLOAD_LEN {
        Err(
            BwpError::Truncated {
                expected: HELLO_ACK_PAYLOAD_LEN,
                actual: payload.len() as usize,
            },
        )
    } else {
        Ok(HelloAck { version: u32_at(payload, 0), concurrency: u32_at(payload, 4) })
    }
}

impl Hello {
    pub fn encode(&self) -> (r: [u8; HELLO_PAYLOAD_LEN])
        ensures
            r@ == hello_bytes(*self),
    {
        let v = le_bytes(self.version);
        let p = le_bytes(self.pid);
        let c = le_bytes(self.concurrency);
        let k = le_bytes(self.capabilities);
        let r = [
            66,
            87,
            80,
            0,
            v[0],
            v[1],
            v[2],
            v[3],
            p[0],
            p[1],
            p[2],
            p[3],
            c[0],
            c[1],
            c[2],
            c[3],
            k[0],
            k[1],
            k[2],
            k[3],
        ];
        assert(r@ =~= hello_bytes(*self));
        r
    }

    pub fn decode(payload: &[u8]) -> (r: Result<Self, BwpError>)
        ensures
            r == hello_of(payload@),
    {
        if payload.len() < HELLO_PAYLOAD_LEN {
            return Err(
                BwpError::Truncated { expected: HELLO_PAYLOAD_LEN, actual: payload.len() },
            );
        }
        let ok = payload[0] == 66 && payload[1] == 87 && payload[2] == 80 && payload[3] == 0;
        proof {
            let m = payload@.subrange(0, 4);
            assert(m[0] == payload@[0] && m[1] == payload@[1] && m[2] == payload@[2] && m[3]
                == payload@[3]);
            if ok {
                assert(m =~= magic());
            } else {
                assert(magic()[0] == 66 && magic()[1] == 87 && magic()[2] == 80 && magic()[3]
                    == 0);
            }
        }
        if !ok {
            return Err(BwpError::BadMagic);
        }
        Ok(
            Hello {
                version: read_u32(payload, 4),
                pid: read_u32(payload, 8),
                concurrency: read_u32(payload, 12),
                capabilities: read_u32(payload, 16),
            },
        )
    }
}

impl HelloAck {
    pub fn encode(&self) -> (r: [u8; HELLO_ACK_PAYLOAD_LEN])
        ensures
            r@ == hello_ack_bytes(*self),
    {
        let v = le_bytes(self.version);
        let c = le_bytes(self.concurrency);
        let r = [v[0], v[1], v[2], v[3], c[0], c[1], c[2], c[3]];
        assert(r@ =~= hello_ack_bytes(*self));
        r
    }

    pub fn decode(payload: &[u8]) -> (r: Result<Self, BwpError>)
        ensures
            r == hello_ack_of(payload@),
    {
        if payload.len() < HELLO_ACK_PAYLOAD_LEN {
            return Err(
                BwpError::Truncated { expected: HELLO_ACK_PAYLOAD_LEN, actual: payload.len() },
            );
        }
        Ok(HelloAck { version: read_u32(payload, 0), concurrency: read_u32(payload, 4) })
    }
}

/// A Hello written to the wire reads back as itself.
pub proof fn hello_roundtrip(h: Hello)
    ensures
        hello_bytes(h).len() == HELLO_PAYLOAD_LEN,
        hello_of(hello_bytes(h)) == Ok::<Hello, BwpError>(h),
{
    let b = hello_bytes(h);
    assert(b.subrange(0, 4) =~= magic());
    assert(b.subrange(4, 8) =~= le32(h.version));
    assert(b.subrange(8, 12) =~= le32(h.pid));
    assert(b.subrange(12, 16) =~= le32(h.concurrency));
    assert(b.subrange(16, 20) =~= le32(h.capabilities));
    lemma_le32(b, 4, h.version);
    lemma_le32(b, 8, h.pid);
    lemma_le32(b, 12, h.concurrency);
    lemma_le32(b, 16, h.capabilities);
}

/// A HelloAck written to the wire reads back as itself.
pub proof fn hello_ack_roundtrip(h: HelloAck)
    ensures
        hello_ack_bytes(h).len() == HELLO_ACK_PAYLOAD_LEN,
        hello_ack_of(hello_ack_bytes(h)) == Ok::<HelloAck, BwpError>(h),
{
    let b = hello_ack_bytes(h);
    assert(b.subrange(0, 4) =~= le32(h.version));
    assert(b.subrange(4, 8) =~= le32(h.concurrency));
    lemma_le32(b, 0, h.version);
    lemma_le32(b, 4, h.concurrency);
}

} // verus!
