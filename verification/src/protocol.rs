//! What clients and the session's master process say to each other, and
//! the master's decisions about what it hears.
//!
//! A packet is a type byte, the payload's length as a big-endian `u32`,
//! and the payload.
use vstd::prelude::*;
use vstd::utf8::encode_utf8;
use crate::error::{ErrorKind, HitchError};
use crate::filters::opt_view;
use crate::session::SessionState;
use crate::text::{push_str, string_of};
use crate::utf8::str_bytes;

verus! {

pub const MSG_PUSH: u8 = 0;

pub const MSG_ATTACH: u8 = 1;

pub const MSG_DETACH: u8 = 2;

pub const MSG_WINCH: u8 = 3;

pub const MSG_DETACH_SESSION: u8 = 4;

/// The size of a terminal window size record (`struct winsize`).
pub const WINSIZE_BYTES: usize = 8;

pub const PAYLOAD_TOO_LARGE: &'static str = "packet payload is too large to send";

/// A packet as read from a stream.
pub struct Packet {
    pub typ: u8,
    pub payload: Vec<u8>,
}

// ---------------------------------------------------------------------------
// Framing
// ---------------------------------------------------------------------------

/// `n` as four big-endian bytes.
pub open spec fn be32(n: u32) -> Seq<u8> {
    seq![
        (n / 0x100_0000) as u8,
        (n / 0x1_0000 % 0x100) as u8,
        (n / 0x100 % 0x100) as u8,
        (n % 0x100) as u8,
    ]
}

/// The number four big-endian bytes spell.
pub open spec fn from_be32(b0: u8, b1: u8, b2: u8, b3: u8) -> int {
    b0 * 0x100_0000 + b1 * 0x1_0000 + b2 * 0x100 + b3
}

/// A packet's bytes on the wire.
pub open spec fn frame(typ: u8, payload: Seq<u8>) -> Seq<u8> {
    seq![typ] + be32(payload.len() as u32) + payload
}

/// The bytes to write for a packet; payloads longer than `u32::MAX` are
/// refused with `InvalidInput`.
pub fn encode_packet(typ: u8, payload: &[u8]) -> (r: Result<Vec<u8>, HitchError>)
    ensures
        r is Ok <==> payload@.len() <= u32::MAX,
        r matches Ok(bytes) ==> bytes@ == frame(typ, payload@),
        r matches Err(e) ==> e.kind == ErrorKind::InvalidInput && e.message@ == PAYLOAD_TOO_LARGE@,
{
    if payload.len() > u32::MAX as usize {
        return Err(HitchError::new(ErrorKind::InvalidInput, PAYLOAD_TOO_LARGE));
    }
    let len = payload.len() as u32;
    let mut out: Vec<u8> = Vec::new();
    out.push(typ);
    out.push((len / 0x100_0000) as u8);
    out.push((len / 0x1_0000 % 0x100) as u8);
    out.push((len / 0x100 % 0x100) as u8);
    out.push((len % 0x100) as u8);
    let ghost head = out@;
    let mut i: usize = 0;
    while i < payload.len()
        invariant
            i <= payload@.len(),
            out@ == head + payload@.subrange(0, i as int),
        decreases payload@.len() - i,
    {
        out.push(payload[i]);
        i = i + 1;
        assert(payload@.subrange(0, i as int) == payload@.subrange(0, i - 1) + seq![payload@[i - 1]]);
    }
    proof {
        assert(payload@.subrange(0, payload@.len() as int) == payload@);
        assert(head =~= seq![typ] + be32(len));
    }
    Ok(out)
}

/// The type and payload length a packet header holds.
pub fn decode_header(header: &[u8; 5]) -> (r: (u8, u32))
    ensures
        r.0 == header@[0],
        r.1 == from_be32(header@[1], header@[2], header@[3], header@[4]),
{
    let len: u32 = header[1] as u32 * 0x100_0000 + header[2] as u32 * 0x1_0000 + header[3] as u32
        * 0x100 + header[4] as u32;
    (header[0], len)
}

/// A packet at the start of `bytes`, with the number of bytes it takes, or
/// `None` when the bytes end before it does.
pub open spec fn parse_frame(bytes: Seq<u8>) -> Option<(u8, Seq<u8>, int)> {
    if bytes.len() < 5 {
        None
    } else {
        let n = from_be32(bytes[1], bytes[2], bytes[3], bytes[4]);
        if bytes.len() < 5 + n {
            None
        } else {
            Some((bytes[0], bytes.subrange(5, 5 + n), 5 + n))
        }
    }
}

pub fn decode_packet(bytes: &[u8]) -> (r: Option<(Packet, usize)>)
    ensures
        r matches Some((p, used)) ==> parse_frame(bytes@) == Some((p.typ, p.payload@, used as int)),
        r is None ==> parse_frame(bytes@) is None,
{
    if bytes.len() < 5 {
        return None;
    }
    let header: [u8; 5] = [bytes[0], bytes[1], bytes[2], bytes[3], bytes[4]];
    let (typ, len) = decode_header(&header);
    if bytes.len() - 5 < len as usize {
        return None;
    }
    let end = 5 + len as usize;
    let mut payload: Vec<u8> = Vec::new();
    let mut i: usize = 5;
    while i < end
        invariant
            5 <= i <= end <= bytes@.len(),
            payload@ == bytes@.subrange(5, i as int),
        decreases end - i,
    {
        payload.push(bytes[i]);
        i = i + 1;
        assert(bytes@.subrange(5, i as int) == bytes@.subrange(5, i - 1) + seq![bytes@[i - 1]]);
    }
    Some((Packet { typ, payload }, end))
}

proof fn lemma_be32_roundtrip(n: u32)
    ensures
        from_be32(be32(n)[0], be32(n)[1], be32(n)[2], be32(n)[3]) == n,
{
    let b0 = n / 0x100_0000;
    let b1 = n / 0x1_0000 % 0x100;
    let b2 = n / 0x100 % 0x100;
    let b3 = n % 0x100;
    assert(b0 * 0x100_0000 + b1 * 0x1_0000 + b2 * 0x100 + b3 == n) by (nonlinear_arith)
        requires
            b0 == n / 0x100_0000,
            b1 == n / 0x1_0000 % 0x100,
            b2 == n / 0x100 % 0x100,
            b3 == n % 0x100,
            n <= u32::MAX,
    {
        assert(n / 0x1_0000 == (n / 0x100_0000) * 0x100 + (n / 0x1_0000 % 0x100));
        assert(n / 0x100 == (n / 0x1_0000) * 0x100 + (n / 0x100 % 0x100));
        assert(n == (n / 0x100) * 0x100 + n % 0x100);
    }
}

/// Law: a packet read back from what was written for it is the packet
/// itself, and it takes exactly its own bytes, whatever follows it.
pub proof fn lemma_frame_roundtrip(typ: u8, payload: Seq<u8>, rest: Seq<u8>)
    requires
        payload.len() <= u32::MAX,
    ensures
        parse_frame(frame(typ, payload) + rest) == Some((typ, payload, 5 + payload.len() as int)),
{
    let n = payload.len() as u32;
    lemma_be32_roundtrip(n);
    let all = frame(typ, payload) + rest;
    assert(all[0] == typ);
    assert(all[1] == be32(n)[0]);
    assert(all[2] == be32(n)[1]);
    assert(all[3] == be32(n)[2]);
    assert(all[4] == be32(n)[3]);
    assert(all.subrange(5, 5 + payload.len() as int) =~= payload);
}

// ---------------------------------------------------------------------------
// What the master does with a packet
// ---------------------------------------------------------------------------

/// The master's response to a packet from a client.
#[derive(Debug, Clone, Copy, PartialEq, Eq, Structural)]
pub enum PacketAction {
    /// Write the payload to the shell as typed input.
    WriteInput,
    /// Mark the client attached and send it the current directory.
    Attach,
    /// Mark the client detached.
    Detach,
    /// Resize the shell's terminal to the window size in the payload.
    Resize,
    /// Stop the whole session.
    StopSession,
    /// Nothing to do.
    Ignore,
}

pub open spec fn action_for(typ: u8, payload_len: nat) -> PacketAction {
    if typ == MSG_PUSH {
        PacketAction::WriteInput
    } else if typ == MSG_ATTACH {
        PacketAction::Attach
    } else if typ == MSG_DETACH {
        PacketAction::Detach
    } else if typ == MSG_WINCH {
        if payload_len == WINSIZE_BYTES {
            PacketAction::Resize
        } else {
            PacketAction::Ignore
        }
    } else if typ == MSG_DETACH_SESSION {
        PacketAction::StopSession
    } else {
        PacketAction::Ignore
    }
}

/// What to do with a packet: a window-size packet of the wrong size and
/// unknown types are ignored.
pub fn packet_action(typ: u8, payload_len: usize) -> (r: PacketAction)
    ensures
        r == action_for(typ, payload_len as nat),
{
    if typ == MSG_PUSH {
        PacketAction::WriteInput
    } else if typ == MSG_ATTACH {
        PacketAction::Attach
    } else if typ == MSG_DETACH {
        PacketAction::Detach
    } else if typ == MSG_WINCH {
        if payload_len == WINSIZE_BYTES {
            PacketAction::Resize
        } else {
            PacketAction::Ignore
        }
    } else if typ == MSG_DETACH_SESSION {
        PacketAction::StopSession
    } else {
        PacketAction::Ignore
    }
}

/// The key that stops sharing: Ctrl-\ (`\` masked to a control code).
pub fn is_detach_key(byte: u8) -> (r: bool)
    ensures
        r == (byte == 0x1c),
{
    byte == 0x1c
}

/// What the attached client does with a chunk read from the user's
/// terminal.
#[derive(PartialEq, Eq, Structural, Debug, Clone, Copy)]
pub enum AttachAction {
    /// The input is closed (nothing was read): leave with status 1.
    InputClosed,
    /// The chunk starts with the detach key: stop sharing, leave with 0.
    Detach,
    /// Anything else is sent on to the shared terminal.
    Forward,
}

pub open spec fn attach_action(chunk: Seq<u8>) -> AttachAction {
    if chunk.len() == 0 {
        AttachAction::InputClosed
    } else if chunk[0] == 0x1c {
        AttachAction::Detach
    } else {
        AttachAction::Forward
    }
}

/// Decides what a chunk of user input does while attached; an empty chunk
/// stands for end of input or a failed read.
pub fn attach_input_action(chunk: &[u8]) -> (r: AttachAction)
    ensures
        r == attach_action(chunk@),
{
    if chunk.len() == 0 {
        AttachAction::InputClosed
    } else if is_detach_key(chunk[0]) {
        AttachAction::Detach
    } else {
        AttachAction::Forward
    }
}

/// The status the client leaves with after an action, if it leaves.
pub fn attach_exit_status(action: AttachAction) -> (r: Option<i32>)
    ensures
        r == (match action {
            AttachAction::InputClosed => Some(1i32),
            AttachAction::Detach => Some(0i32),
            AttachAction::Forward => None,
        }),
{
    match action {
        AttachAction::InputClosed => Some(1),
        AttachAction::Detach => Some(0),
        AttachAction::Forward => None,
    }
}

/// After each round the master looks at whether any client is attached:
/// the new "has been attached" flag, and whether to stop (every client has
/// gone after one was attached).
pub fn attach_watch(any_attached: bool, had_attached: bool) -> (r: (bool, bool))
    ensures
        r == (if any_attached {
            (true, false)
        } else {
            (had_attached, had_attached)
        }),
{
    if any_attached {
        (true, false)
    } else {
        (had_attached, had_attached)
    }
}

/// The exit status of the attaching process when the master hangs up:
/// a user's stop gives 0; otherwise 0 for a join and 42 for the process
/// that started the session, which tells the shell wrapper to leave.
pub fn hangup_status(stopped: bool, joined: bool) -> (r: i32)
    ensures
        r == (if stopped || joined {
            0i32
        } else {
            42i32
        }),
{
    if stopped || joined {
        0
    } else {
        42
    }
}

// ---------------------------------------------------------------------------
// Telling terminals the current directory (OSC 7)
// ---------------------------------------------------------------------------

/// Bytes that stand for themselves in a `file://` URL path.
pub open spec fn unreserved(b: u8) -> bool {
    (0x41 <= b <= 0x5a) || (0x61 <= b <= 0x7a) || (0x30 <= b <= 0x39) || b == 0x2f || b == 0x2e || b
        == 0x2d || b == 0x5f || b == 0x7e
}

pub open spec fn hex_digit(d: u8) -> char {
    if d < 10 {
        (('0' as u8) + d) as char
    } else {
        (('A' as u8) + d - 10) as char
    }
}

/// One byte of a path, percent-encoded.
pub open spec fn encoded_byte(b: u8) -> Seq<char> {
    if unreserved(b) {
        seq![b as char]
    } else {
        seq!['%', hex_digit(b / 16), hex_digit(b % 16)]
    }
}

pub open spec fn encoded_bytes(bs: Seq<u8>) -> Seq<char>
    decreases bs.len(),
{
    if bs.len() == 0 {
        seq![]
    } else {
        encoded_bytes(bs.drop_last()) + encoded_byte(bs.last())
    }
}

fn hex_char(d: u8) -> (c: char)
    requires
        d < 16,
    ensures
        c == hex_digit(d),
{
    if d < 10 {
        (48 + d) as char
    } else {
        (65 + d - 10) as char
    }
}

/// The path's UTF-8 bytes with everything but letters, digits and `/._-~`
/// written as `%XX`.
pub fn percent_encode_path(path: &str) -> (r: String)
    ensures
        r@ == encoded_bytes(encode_utf8(path@)),
{
    let bytes = str_bytes(path);
    let mut out: Vec<char> = Vec::new();
    let mut i: usize = 0;
    while i < bytes.len()
        invariant
            i <= bytes@.len(),
            out@ == encoded_bytes(bytes@.subrange(0, i as int)),
        decreases bytes@.len() - i,
    {
        let b = bytes[i];
        let ghost pre = bytes@.subrange(0, i as int);
        proof {
            let next = bytes@.subrange(0, i + 1);
            assert(next.drop_last() == pre);
            assert(next.last() == b);
        }
        if (0x41 <= b && b <= 0x5a) || (0x61 <= b && b <= 0x7a) || (0x30 <= b && b <= 0x39) || b
            == 0x2f || b == 0x2e || b == 0x2d || b == 0x5f || b == 0x7e {
            out.push(b as char);
        } else {
            out.push('%');
            out.push(hex_char(b / 16));
            out.push(hex_char(b % 16));
        }
        i = i + 1;
    }
    assert(bytes@.subrange(0, bytes@.len() as int) == bytes@);
    string_of(out.as_slice())
}

/// `ESC ] 7 ; file://localhost<path> BEL`, which tells a terminal its
/// working directory.
pub open spec fn osc7(cwd: Seq<char>) -> Seq<u8> {
    seq![0x1bu8, 0x5du8] + encode_utf8("7;file://localhost"@ + encoded_bytes(encode_utf8(cwd)))
        + seq![0x07u8]
}

pub fn osc7_cwd(cwd: &str) -> (r: Vec<u8>)
    ensures
        r@ == osc7(cwd@),
{
    let enc = percent_encode_path(cwd);
    let mut body: Vec<char> = Vec::new();
    push_str(&mut body, "7;file://localhost");
    push_str(&mut body, enc.as_str());
    let body_str = string_of(body.as_slice());
    let body_bytes = str_bytes(body_str.as_str());
    let mut out: Vec<u8> = Vec::new();
    out.push(0x1b);
    out.push(0x5d);
    let mut i: usize = 0;
    while i < body_bytes.len()
        invariant
            i <= body_bytes@.len(),
            out@ == seq![0x1bu8, 0x5du8] + body_bytes@.subrange(0, i as int),
        decreases body_bytes@.len() - i,
    {
        out.push(body_bytes[i]);
        i = i + 1;
        assert(body_bytes@.subrange(0, i as int) == body_bytes@.subrange(0, i - 1) + seq![
            body_bytes@[i - 1],
        ]);
    }
    out.push(0x07);
    proof {
        assert(body_bytes@.subrange(0, body_bytes@.len() as int) == body_bytes@);
    }
    out
}

/// The directory to announce to attached clients, if it changed since the
/// last announcement; `last` is brought up to date.
pub fn cwd_broadcast(current: &Option<String>, last: &mut Option<String>) -> (r: Option<Vec<u8>>)
    ensures
        opt_view(*final(last)) == opt_view(*current),
        opt_view(*current) == opt_view(*old(last)) ==> r is None,
        opt_view(*current) != opt_view(*old(last)) ==> (match current {
            Some(c) => r matches Some(b) && b@ == osc7(c@),
            None => r is None,
        }),
{
    let same: bool = match current {
        Some(a) => match last {
            Some(b) => {
                let e = *a == *b;
                e
            },
            None => false,
        },
        None => last.is_none(),
    };
    if same {
        return None;
    }
    *last = current.clone();
    match current {
        Some(c) => Some(osc7_cwd(c.as_str())),
        None => None,
    }
}

// ---------------------------------------------------------------------------
// Following the foreground command
// ---------------------------------------------------------------------------

/// The master's record of the command in the foreground of the shell.
pub struct CommandTracker {
    pub state: SessionState,
    pub shell_pid: i32,
    pub current_pgrp: Option<i32>,
}

impl CommandTracker {
    pub fn new(state: SessionState, shell_pid: i32) -> (r: Self)
        ensures
            r.state == state,
            r.shell_pid == shell_pid,
            r.current_pgrp is None,
    {
        CommandTracker { state, shell_pid, current_pgrp: None }
    }

    /// Input was typed at `now`.
    pub fn note_input(&mut self, now: u64)
        ensures
            final(self).state == (SessionState { last_activity_at: Some(now), ..old(self).state }),
            final(self).shell_pid == old(self).shell_pid,
            final(self).current_pgrp == old(self).current_pgrp,
    {
        self.state.last_activity_at = Some(now);
    }

    /// Whether `refresh` with this foreground group needs the command line
    /// (a new command took the foreground).
    pub fn command_needed(&self, fg: Option<i32>) -> (r: bool)
        ensures
            r == (fg matches Some(p) && p != self.shell_pid && self.current_pgrp != Some(p)),
    {
        match fg {
            Some(p) => p != self.shell_pid && !(self.current_pgrp == Some(p)),
            None => false,
        }
    }

    /// Updates the record for the terminal's foreground process group `fg`
    /// at time `now`, given that group's working directory and, when a new
    /// command took the foreground, its command line. Returns whether the
    /// active-output file must be emptied (a new command started).
    pub fn refresh(&mut self, fg: Option<i32>, cwd: Option<String>, command: Option<String>, now: u64) -> (clear: bool)
        ensures
            final(self).shell_pid == old(self).shell_pid,
            final(self).state.foreground_pgrp == fg,
            final(self).state.last_activity_at == old(self).state.last_activity_at,
            fg is None ==> final(self).current_pgrp == old(self).current_pgrp && !clear
                && final(self).state == (SessionState { foreground_pgrp: None, ..old(self).state }),
            fg is Some ==> final(self).state.current_dir == (match cwd {
                Some(c) => Some(c),
                None => old(self).state.current_dir,
            }),
            fg is Some && fg.unwrap() != old(self).shell_pid ==> {
                &&& final(self).current_pgrp == fg
                &&& final(self).state.command_running
                &&& clear == (old(self).current_pgrp != fg)
                &&& clear ==> final(self).state.active_command == command
                    && final(self).state.command_started_at == Some(now)
                    && final(self).state.command_finished_at is None
                &&& !clear ==> final(self).state.active_command == old(self).state.active_command
                    && final(self).state.command_started_at == old(self).state.command_started_at
                    && final(self).state.command_finished_at == old(self).state.command_finished_at
            },
            fg is Some && fg.unwrap() == old(self).shell_pid ==> {
                &&& final(self).current_pgrp is None
                &&& !clear
                &&& !final(self).state.command_running
                &&& final(self).state.active_command is None
                &&& final(self).state.command_started_at == old(self).state.command_started_at
                &&& final(self).state.command_finished_at == (if old(self).current_pgrp is Some {
                    Some(now)
                } else {
                    old(self).state.command_finished_at
                })
            },
    {
        self.state.foreground_pgrp = fg;
        let pgrp = match fg {
            None => {
                return false;
            },
            Some(p) => p,
        };
        if let Some(c) = cwd {
            self.state.current_dir = Some(c);
        }
        if pgrp != self.shell_pid {
            let mut clear = false;
            if !(self.current_pgrp == Some(pgrp)) {
                self.current_pgrp = Some(pgrp);
                self.state.active_command = command;
                self.state.command_started_at = Some(now);
                self.state.command_finished_at = None;
                clear = true;
            }
            self.state.command_running = true;
            clear
        } else {
            self.state.active_command = None;
            self.state.command_running = false;
            if self.current_pgrp.is_some() {
                self.state.command_finished_at = Some(now);
            }
            self.current_pgrp = None;
            false
        }
    }

    /// Output is copied to the active-output file only while a command runs.
    pub fn captures_output(&self) -> (r: bool)
        ensures
            r == self.state.command_running,
    {
        self.state.command_running
    }
}

} // verus!
