//! The channel between the supervisor and an application's prototype.
//!
//! The supervisor first sends the application's settings, then commands. A
//! prototype forks a worker per spawn command and knows it by the token that
//! came with the command; it kills by token the very child that it forked.

use std::collections::BTreeMap;
use vstd::prelude::*;
use vstd::std_specs::iter::IteratorSpec;
use vstd::string::*;
use vstd::utf8::encode_utf8;

use crate::bytes::{
    le32, le64, lemma_le32, lemma_le64, push_bytes, push_u32, push_u64, read_u32, read_u64, u32_at,
    u64_at,
};
use crate::ipc::shown;
use crate::text::{cat2, decimal};

verus! {

/// Fork a worker; the worker's channel rides beside this byte, its token
/// follows.
pub const CMD_SPAWN: u8 = 1;

/// Kill a worker; its token follows.
pub const CMD_KILL: u8 = 2;

/// Longest settings that a prototype accepts.
pub const MAX_APP_CONFIG: usize = 1048576;

/// A command to a prototype. `Spawn` goes with the worker's channel.
#[derive(Debug, Clone, Copy, PartialEq, Eq, Structural)]
pub enum Command {
    Spawn(u64),
    Kill(u64),
}

/// A command on the channel.
pub open spec fn command_bytes(c: Command) -> Seq<u8> {
    match c {
        Command::Spawn(token) => seq![CMD_SPAWN] + le64(token),
        Command::Kill(token) => seq![CMD_KILL] + le64(token),
    }
}

/// The bytes of a command.
pub fn encode_command(c: Command) -> (r: Vec<u8>)
    ensures
        r@ == command_bytes(c),
{
    let mut out: Vec<u8> = Vec::new();
    match c {
        Command::Spawn(token) => {
            out.push(CMD_SPAWN);
            assert(out@ =~= seq![CMD_SPAWN]);
            push_u64(&mut out, token);
        },
        Command::Kill(token) => {
            out.push(CMD_KILL);
            assert(out@ =~= seq![CMD_KILL]);
            push_u64(&mut out, token);
        },
    }
    out
}

/// Why a command cannot be taken.
#[derive(Debug, Clone, Copy, PartialEq, Eq, Structural)]
pub enum ControlError {
    /// A spawn command without a channel for the worker.
    NoChannel,
    Unknown(u8),
}

/// What an error says.
pub open spec fn control_error_text(e: ControlError) -> Seq<char> {
    match e {
        ControlError::NoChannel => "spawn command without an fd"@,
        ControlError::Unknown(b) => "unknown control command "@ + shown(b as int),
    }
}

impl ControlError {
    /// The error in words.
    pub fn message(&self) -> (r: String)
        ensures
            r@ == control_error_text(*self),
    {
        match *self {
            ControlError::NoChannel => "spawn command without an fd".to_owned(),
            ControlError::Unknown(b) => cat2(
                "unknown control command ",
                decimal(b as u64).as_str(),
            ),
        }
    }
}

/// The fault in a command's first byte.
pub open spec fn command_fault(first: u8, has_channel: bool) -> Option<ControlError> {
    if first == CMD_SPAWN {
        if has_channel {
            None
        } else {
            Some(ControlError::NoChannel)
        }
    } else if first == CMD_KILL {
        None
    } else {
        Some(ControlError::Unknown(first))
    }
}

/// Whether a command's first byte can be taken, before its token is read.
pub fn check_command(first: u8, has_channel: bool) -> (r: Result<(), ControlError>)
    ensures
        match command_fault(first, has_channel) {
            Some(e) => r == Err::<(), ControlError>(e),
            None => r is Ok,
        },
{
    if first == CMD_SPAWN {
        if has_channel {
            Ok(())
        } else {
            Err(ControlError::NoChannel)
        }
    } else if first == CMD_KILL {
        Ok(())
    } else {
        Err(ControlError::Unknown(first))
    }
}

/// The command that a first byte and a token make.
pub open spec fn command_of(first: u8, has_channel: bool, token: Seq<u8>) -> Result<
    Command,
    ControlError,
> {
    match command_fault(first, has_channel) {
        Some(e) => Err(e),
        None => Ok(
            if first == CMD_SPAWN {
                Command::Spawn(u64_at(token, 0))
            } else {
                Command::Kill(u64_at(token, 0))
            },
        ),
    }
}

/// Read a command, given its first byte, if the channel is not closed, whether
/// a worker's channel came with it, and the token that follows. `None` means
/// that the supervisor is gone.
pub fn recv_command(first: Option<u8>, has_channel: bool, token: &[u8; 8]) -> (r: Result<
    Option<Command>,
    ControlError,
>)
    ensures
        match first {
            None => r == Ok::<Option<Command>, ControlError>(None),
            Some(b) => match command_of(b, has_channel, token@) {
                Ok(c) => r == Ok::<Option<Command>, ControlError>(Some(c)),
                Err(e) => r == Err::<Option<Command>, ControlError>(e),
            },
        },
{
    let first: u8 = match first {
        Some(b) => b,
        None => {
            return Ok(None);
        },
    };
    match check_command(first, has_channel) {
        Err(e) => Err(e),
        Ok(_) => {
            let t: u64 = read_u64(token.as_slice(), 0);
            Ok(
                Some(
                    if first == CMD_SPAWN {
                        Command::Spawn(t)
                    } else {
                        Command::Kill(t)
                    },
                ),
            )
        },
    }
}

/// A command that is sent is the command that is read, where a channel goes
/// with a spawn command.
pub proof fn command_roundtrip(c: Command)
    ensures
        ({
            let b = command_bytes(c);
            &&& b.len() == 9
            &&& command_of(b[0], true, b.subrange(1, 9)) == Ok::<Command, ControlError>(c)
        }),
{
    let token = match c {
        Command::Spawn(t) => t,
        Command::Kill(t) => t,
    };
    let b = command_bytes(c);
    assert(b.subrange(1, 9) =~= le64(token));
    assert(le64(token).subrange(0, 8) =~= le64(token));
    lemma_le64(b.subrange(1, 9), 0, token);
}

/// Settings on the channel: their length, then their text.
pub open spec fn config_bytes(config: Seq<char>) -> Seq<u8> {
    le32(encode_utf8(config).len() as u32) + encode_utf8(config)
}

/// The message that carries an application's settings; `None` where they are
/// too long for a prototype.
pub fn config_message(config: &str) -> (r: Option<Vec<u8>>)
    ensures
        match r {
            Some(m) => encode_utf8(config@).len() <= MAX_APP_CONFIG && m@ == config_bytes(config@),
            None => encode_utf8(config@).len() > MAX_APP_CONFIG,
        },
{
    let bytes = config.as_bytes();
    if bytes.len() > MAX_APP_CONFIG {
        return None;
    }
    let mut out: Vec<u8> = Vec::new();
    push_u32(&mut out, bytes.len() as u32);
    push_bytes(&mut out, bytes);
    assert(out@ =~= config_bytes(config@));
    Some(out)
}

/// The length that settings announce.
pub open spec fn announced(prefix: Seq<u8>) -> Option<nat> {
    if u32_at(prefix, 0) > MAX_APP_CONFIG {
        None
    } else {
        Some(u32_at(prefix, 0) as nat)
    }
}

/// How many bytes of settings follow; an error where they are too long.
pub fn config_length(prefix: &[u8; 4]) -> (r: Result<usize, String>)
    ensures
        match announced(prefix@) {
            Some(n) => r == Ok::<usize, String>(n as usize),
            None => r matches Err(m) && m@ == "app config length "@ + shown(
                u32_at(prefix@, 0) as int,
            ) + " exceeds 1048576"@,
        },
{
    let n: u32 = read_u32(prefix.as_slice(), 0);
    if n as usize > MAX_APP_CONFIG {
        let mut m = "app config length ".to_owned();
        m.append(decimal(n as u64).as_str());
        m.append(" exceeds 1048576");
        return Err(m);
    }
    Ok(n as usize)
}

/// Settings that are sent are announced with their length and follow it.
pub proof fn config_roundtrip(config: Seq<char>)
    requires
        encode_utf8(config).len() <= MAX_APP_CONFIG,
    ensures
        ({
            let b = config_bytes(config);
            &&& announced(b.subrange(0, 4)) == Some(encode_utf8(config).len())
            &&& b.subrange(4, b.len() as int) == encode_utf8(config)
        }),
{
    let b = config_bytes(config);
    let n = encode_utf8(config).len() as u32;
    assert(b.subrange(0, 4) =~= le32(n));
    assert(le32(n).subrange(0, 4) =~= le32(n));
    lemma_le32(b.subrange(0, 4), 0, n);
    assert(b.subrange(4, b.len() as int) =~= encode_utf8(config));
}

/// The workers that a prototype has forked: their process ids by token.
pub struct Children {
    pids: BTreeMap<u64, i32>,
}

impl View for Children {
    type V = Map<u64, i32>;

    closed spec fn view(&self) -> Map<u64, i32> {
        self.pids@
    }
}

/// The children that are left once a process has exited.
pub open spec fn survivors(m: Map<u64, i32>, pid: i32) -> Map<u64, i32> {
    Map::new(|t: u64| m.dom().contains(t) && m[t] != pid, |t: u64| m[t])
}

impl Children {
    pub fn new() -> (r: Self)
        ensures
            r@ == Map::<u64, i32>::empty(),
    {
        Children { pids: BTreeMap::new() }
    }

    /// A worker was forked.
    pub fn forked(&mut self, token: u64, pid: i32)
        ensures
            final(self)@ == old(self)@.insert(token, pid),
    {
        self.pids.insert(token, pid);
    }

    /// The process to kill for a token, if it still runs.
    pub fn pid_of(&self, token: u64) -> (r: Option<i32>)
        ensures
            r == if self@.dom().contains(token) {
                Some(self@[token])
            } else {
                None
            },
    {
        match self.pids.get(&token) {
            Some(p) => Some(*p),
            None => None,
        }
    }

    /// A process has exited.
    pub fn reaped(&mut self, pid: i32)
        ensures
            final(self)@ == survivors(old(self)@, pid),
    {
        let mut tokens: Vec<u64> = Vec::new();
        let ghost all = self.pids.keys().remaining();
        for k in it: self.pids.keys()
            invariant
                it.seq() == all,
                tokens@ == all.unref().take(it.index() as int),
        {
            proof {
                let i = it.index() as int;
                assert(all.unref().take(i + 1) =~= all.unref().take(i).push(*k));
            }
            tokens.push(*k);
        }
        assert(all.unref().take(all.len() as int) =~= all.unref());
        let ghost was = self.pids@;
        let mut i: usize = 0;
        while i < tokens.len()
            invariant
                i <= tokens@.len(),
                forall|t: u64| was.dom().contains(t) <==> tokens@.contains(t),
                forall|t: u64| #[trigger]
                    self.pids@.dom().contains(t) <==> was.dom().contains(t) && !(was[t] == pid
                        && tokens@.take(i as int).contains(t)),
                forall|t: u64| #[trigger] self.pids@.dom().contains(t) ==> self.pids@[t] == was[t],
            decreases tokens@.len() - i,
        {
            let t: u64 = tokens[i];
            let ghost before = self.pids@;
            let gone = match self.pids.get(&t) {
                Some(p) => *p == pid,
                None => false,
            };
            if gone {
                self.pids.remove(&t);
            }
            proof {
                assert(tokens@.contains(t));
                assert(tokens@.take(i + 1) =~= tokens@.take(i as int).push(t));
                assert forall|u: u64| #[trigger] self.pids@.dom().contains(u) <==> was.dom().contains(
                    u,
                ) && !(was[u] == pid && tokens@.take(i + 1).contains(u)) by {
                    let old_part = tokens@.take(i as int);
                    let new_part = tokens@.take(i + 1);
                    assert(before.dom().contains(u) <==> was.dom().contains(u) && !(was[u] == pid
                        && old_part.contains(u)));
                    if u == t {
                        assert(new_part[i as int] == u);
                    } else {
                        if new_part.contains(u) {
                            let j = choose|j: int| 0 <= j < new_part.len() && new_part[j] == u;
                            assert(old_part[j] == u);
                        }
                        if old_part.contains(u) {
                            let j = choose|j: int| 0 <= j < old_part.len() && old_part[j] == u;
                            assert(new_part[j] == u);
                        }
                    }
                }
            }
            i += 1;
        }
        proof {
            assert(tokens@.take(i as int) =~= tokens@);
            assert(self@ =~= survivors(was, pid));
        }
    }
}

/// A worker that has exited is not killed any more, whatever has its process id
/// now; a kill for its token finds nothing.
pub proof fn exited_worker_is_not_killed(m: Map<u64, i32>, token: u64)
    requires
        m.dom().contains(token),
    ensures
        !survivors(m, m[token]).dom().contains(token),
        forall|t: u64| #[trigger]
            m.dom().contains(t) && m[t] != m[token] ==> survivors(m, m[token]).dom().contains(t)
                && survivors(m, m[token])[t] == m[t],
{
}

} // verus!
