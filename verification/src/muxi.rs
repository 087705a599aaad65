//! The `muxi` variant of the tool: its title filter, its escape stripping
//! for plain-text output, its fixed-size packets and its session listing.
use vstd::prelude::*;
use vstd::utf8::encode_utf8;
use crate::error::{ErrorKind, HitchError};
use crate::output::{keep_visible, last_of};
use crate::style::{painted, Style, DIM, GREEN, RESET};
use crate::text::{
    chars_of, decimal, lines, push_decimal, push_str, str_views, string_of,
};
use crate::utf8::{read_text, str_bytes, utf8_lossy};

verus! {

// ---------------------------------------------------------------------------
// Title filter
// ---------------------------------------------------------------------------

/// Removes window-title sequences (`ESC ] 0|1|2 ; ... BEL` or `... ESC \`),
/// remembering only where in a sequence it is.
pub struct TitleStateFilter {
    pub state: u8,
}

/// One byte: the new state and the bytes let through.
pub open spec fn muxi_title_step(state: u8, b: u8) -> (u8, Seq<u8>) {
    if state == 0 {
        if b == 0x1b {
            (1, seq![])
        } else {
            (0, seq![b])
        }
    } else if state == 1 {
        if b == 0x5d {
            (2, seq![])
        } else {
            (0, seq![0x1bu8, b])
        }
    } else if state == 2 {
        if b == 0x30 || b == 0x31 || b == 0x32 {
            (3, seq![])
        } else {
            (0, seq![0x1bu8, 0x5du8, b])
        }
    } else if state == 3 {
        if b == 0x3b {
            (4, seq![])
        } else {
            (0, seq![0x1bu8, 0x5du8, b])
        }
    } else if state == 4 {
        if b == 0x07 {
            (0, seq![])
        } else if b == 0x1b {
            (5, seq![])
        } else {
            (4, seq![])
        }
    } else if state == 5 {
        if b == 0x5c {
            (0, seq![])
        } else {
            (4, seq![])
        }
    } else {
        (0, seq![])
    }
}

pub open spec fn muxi_title_run(state: u8, input: Seq<u8>) -> (u8, Seq<u8>)
    decreases input.len(),
{
    if input.len() == 0 {
        (state, seq![])
    } else {
        let (s1, o1) = muxi_title_run(state, input.drop_last());
        let (s2, o2) = muxi_title_step(s1, input.last());
        (s2, o1 + o2)
    }
}

impl TitleStateFilter {
    pub fn new() -> (r: Self)
        ensures
            r.state == 0,
    {
        TitleStateFilter { state: 0 }
    }

    pub fn filter(&mut self, input: &[u8]) -> (out: Vec<u8>)
        ensures
            (final(self).state, out@) == muxi_title_run(old(self).state, input@),
    {
        let ghost s0 = self.state;
        let mut out: Vec<u8> = Vec::new();
        let mut i: usize = 0;
        while i < input.len()
            invariant
                i <= input@.len(),
                (self.state, out@) == muxi_title_run(s0, input@.subrange(0, i as int)),
            decreases input@.len() - i,
        {
            let b = input[i];
            proof {
                let next = input@.subrange(0, i + 1);
                assert(next.drop_last() == input@.subrange(0, i as int));
                assert(next.last() == b);
            }
            let s = self.state;
            if s == 0 {
                if b == 0x1b {
                    self.state = 1;
                } else {
                    out.push(b);
                }
            } else if s == 1 {
                if b == 0x5d {
                    self.state = 2;
                } else {
                    out.push(0x1b);
                    out.push(b);
                    self.state = 0;
                }
            } else if s == 2 {
                if b == 0x30 || b == 0x31 || b == 0x32 {
                    self.state = 3;
                } else {
                    out.push(0x1b);
                    out.push(0x5d);
                    out.push(b);
                    self.state = 0;
                }
            } else if s == 3 {
                if b == 0x3b {
                    self.state = 4;
                } else {
                    out.push(0x1b);
                    out.push(0x5d);
                    out.push(b);
                    self.state = 0;
                }
            } else if s == 4 {
                if b == 0x07 {
                    self.state = 0;
                } else if b == 0x1b {
                    self.state = 5;
                }
            } else if s == 5 {
                self.state = if b == 0x5c {
                    0
                } else {
                    4
                };
            } else {
                self.state = 0;
            }
            i = i + 1;
        }
        assert(input@.subrange(0, input@.len() as int) == input@);
        out
    }
}

impl Default for TitleStateFilter {
    fn default() -> (r: Self)
        ensures
            r.state == 0,
    {
        TitleStateFilter::new()
    }
}

/// Law: text without escape bytes passes through the title filter as it is.
pub proof fn lemma_muxi_plain_text(input: Seq<u8>)
    requires
        forall|i: int| 0 <= i < input.len() ==> input[i] != 0x1b,
    ensures
        muxi_title_run(0, input) == (0u8, input),
    decreases input.len(),
{
    if input.len() > 0 {
        let d = input.drop_last();
        assert forall|i: int| 0 <= i < d.len() implies d[i] != 0x1b by {
            assert(d[i] == input[i]);
        }
        lemma_muxi_plain_text(d);
        assert(d + seq![input.last()] == input);
    }
}

// ---------------------------------------------------------------------------
// Stripping escape sequences
// ---------------------------------------------------------------------------

/// Where the body of an OSC string that starts at `k` stops: at a BEL, just
/// after `ESC \`, or at the end.
pub open spec fn osc_stop(b: Seq<u8>, k: int) -> int
    decreases b.len() - k,
{
    if k < 0 || k >= b.len() {
        k
    } else if b[k] == 0x07 {
        k
    } else if b[k] == 0x1b && k + 1 < b.len() && b[k + 1] == 0x5c {
        k + 2
    } else {
        osc_stop(b, k + 1)
    }
}

/// Past an OSC string starting at `k` (a BEL right where it stops is
/// skipped as well).
pub open spec fn osc_past(b: Seq<u8>, k: int) -> int {
    let e = osc_stop(b, k);
    if 0 <= e < b.len() && b[e] == 0x07 {
        e + 1
    } else {
        e
    }
}

/// Past the final byte (`@`..`~`) of a control sequence whose parameters
/// start at `k`.
pub open spec fn csi_past(b: Seq<u8>, k: int) -> int
    decreases b.len() - k,
{
    if k < 0 || k >= b.len() {
        k
    } else if 0x40 <= b[k] <= 0x7e {
        k + 1
    } else {
        csi_past(b, k + 1)
    }
}

/// The bytes from `i` on without escape sequences and without control bytes
/// other than newline and tab.
pub open spec fn ansi_free_from(b: Seq<u8>, i: int) -> Seq<u8>
    decreases b.len() - i,
{
    if i < 0 || i >= b.len() {
        seq![]
    } else if b[i] == 0x1b {
        let j = if i + 1 < b.len() && b[i + 1] == 0x5d {
            osc_past(b, i + 2)
        } else {
            csi_past(b, i + 2)
        };
        if j <= i || j >= b.len() {
            seq![]
        } else {
            ansi_free_from(b, j)
        }
    } else if b[i] >= 0x20 || b[i] == 0x0a || b[i] == 0x09 {
        seq![b[i]] + ansi_free_from(b, i + 1)
    } else {
        ansi_free_from(b, i + 1)
    }
}

/// What stripping keeps is plain: no escape byte and no control byte but
/// newline and tab is left.
pub proof fn lemma_ansi_free_is_plain(b: Seq<u8>, i: int)
    ensures
        forall|k: int|
            0 <= k < ansi_free_from(b, i).len() ==> {
                let c = #[trigger] ansi_free_from(b, i)[k];
                c >= 0x20 || c == 0x0a || c == 0x09
            },
    decreases b.len() - i,
{
    if i < 0 || i >= b.len() {
    } else if b[i] == 0x1b {
        let j = if i + 1 < b.len() && b[i + 1] == 0x5d {
            osc_past(b, i + 2)
        } else {
            csi_past(b, i + 2)
        };
        if j <= i || j >= b.len() {
            assert(ansi_free_from(b, i).len() == 0);
        } else {
            lemma_ansi_free_is_plain(b, j);
            assert(ansi_free_from(b, i) == ansi_free_from(b, j));
        }
    } else {
        lemma_ansi_free_is_plain(b, i + 1);
        let rest = ansi_free_from(b, i + 1);
        if b[i] >= 0x20 || b[i] == 0x0a || b[i] == 0x09 {
            assert(ansi_free_from(b, i) == seq![b[i]] + rest);
            assert forall|k: int| 0 < k < ansi_free_from(b, i).len() implies ansi_free_from(b, i)[k]
                == rest[k - 1] by {}
        } else {
            assert(ansi_free_from(b, i) == rest);
        }
    }
}

proof fn lemma_osc_stop_bound(b: Seq<u8>, k: int)
    requires
        0 <= k,
    ensures
        k <= osc_stop(b, k),
        k <= b.len() ==> osc_stop(b, k) <= b.len(),
        osc_stop(b, k) > b.len() ==> osc_stop(b, k) == k,
    decreases b.len() - k,
{
    if k < b.len() && b[k] != 0x07 && !(b[k] == 0x1b && k + 1 < b.len() && b[k + 1] == 0x5c) {
        lemma_osc_stop_bound(b, k + 1);
    }
}

proof fn lemma_csi_past_bound(b: Seq<u8>, k: int)
    requires
        0 <= k,
    ensures
        k <= csi_past(b, k),
        k <= b.len() ==> csi_past(b, k) <= b.len(),
        csi_past(b, k) > b.len() ==> csi_past(b, k) == k,
    decreases b.len() - k,
{
    if k < b.len() && !(0x40 <= b[k] <= 0x7e) {
        lemma_csi_past_bound(b, k + 1);
    }
}

fn osc_past_exec(b: &[u8], k: usize) -> (r: usize)
    requires
        k <= b@.len(),
    ensures
        r == osc_past(b@, k as int),
{
    let n = b.len();
    let mut i = k;
    let ghost k0 = k as int;
    proof {
        lemma_osc_stop_bound(b@, k0);
    }
    while i < n && b[i] != 0x07 && !(b[i] == 0x1b && i + 1 < n && b[i + 1] == 0x5c)
        invariant
            n == b@.len(),
            k0 <= i,
            i <= n,
            osc_stop(b@, k0) == osc_stop(b@, i as int),
        decreases n - i,
    {
        i = i + 1;
    }
    let stop = if i < n && b[i] == 0x1b {
        i + 2
    } else {
        i
    };
    if stop < n && b[stop] == 0x07 {
        stop + 1
    } else {
        stop
    }
}

fn csi_past_exec(b: &[u8], k: usize) -> (r: usize)
    requires
        k <= b@.len(),
    ensures
        r == csi_past(b@, k as int),
{
    let n = b.len();
    let mut i = k;
    let ghost k0 = k as int;
    while i < n && !(0x40 <= b[i] && b[i] <= 0x7e)
        invariant
            n == b@.len(),
            k0 <= i <= n,
            csi_past(b@, k0) == csi_past(b@, i as int),
        decreases n - i,
    {
        i = i + 1;
    }
    if i < n {
        i + 1
    } else {
        i
    }
}

/// The text without escape sequences and control characters other than
/// newline and tab; bytes left broken are read as lossy UTF-8.
pub fn strip_ansi(value: &str) -> (r: String)
    ensures
        r@ == read_text(ansi_free_from(encode_utf8(value@), 0)),
{
    let b = str_bytes(value);
    let n = b.len();
    let mut out: Vec<u8> = Vec::new();
    let mut i: usize = 0;
    while i < n
        invariant
            n == b@.len(),
            i <= n,
            out@ + ansi_free_from(b@, i as int) == ansi_free_from(b@, 0),
        decreases n - i,
    {
        if b[i] == 0x1b {
            if n - i <= 2 {
                proof {
                    let j = if i + 1 < n && b@[i + 1] == 0x5d {
                        lemma_osc_stop_bound(b@, i + 2);
                        osc_past(b@, i + 2)
                    } else {
                        lemma_csi_past_bound(b@, i + 2);
                        csi_past(b@, i + 2)
                    };
                    assert(j >= n);
                    assert(ansi_free_from(b@, i as int) == Seq::<u8>::empty());
                    assert(ansi_free_from(b@, n as int) == Seq::<u8>::empty());
                }
                i = n;
            } else {
                let j = if i + 1 < n && b[i + 1] == 0x5d {
                    proof {
                        lemma_osc_stop_bound(b@, i + 2);
                    }
                    osc_past_exec(b.as_slice(), i + 2)
                } else {
                    proof {
                        lemma_csi_past_bound(b@, i + 2);
                    }
                    csi_past_exec(b.as_slice(), i + 2)
                };
                proof {
                    if j >= n {
                        assert(ansi_free_from(b@, j as int) == Seq::<u8>::empty());
                    }
                }
                i = j;
            }
        } else {
            if b[i] >= 0x20 || b[i] == 0x0a || b[i] == 0x09 {
                let ghost before = out@;
                out.push(b[i]);
                proof {
                    assert(out@ + ansi_free_from(b@, i + 1) =~= before + (seq![b@[i as int]]
                        + ansi_free_from(b@, i + 1)));
                }
            }
            i = i + 1;
        }
    }
    proof {
        assert(ansi_free_from(b@, i as int) == Seq::<u8>::empty());
        assert(out@ + Seq::<u8>::empty() == out@);
    }
    utf8_lossy(out.as_slice())
}

/// The text without carriage returns (`replace('\r', "")`).
pub open spec fn without_cr(s: Seq<char>) -> Seq<char>
    decreases s.len(),
{
    if s.len() == 0 {
        seq![]
    } else if s.last() == '\r' {
        without_cr(s.drop_last())
    } else {
        without_cr(s.drop_last()).push(s.last())
    }
}

pub fn remove_carriage_returns(s: &str) -> (r: String)
    ensures
        r@ == without_cr(s@),
{
    let c = chars_of(s);
    let mut out: Vec<char> = Vec::new();
    let mut i: usize = 0;
    while i < c.len()
        invariant
            i <= c@.len(),
            c@ == s@,
            out@ == without_cr(c@.subrange(0, i as int)),
        decreases c@.len() - i,
    {
        proof {
            let next = c@.subrange(0, i + 1);
            assert(next.drop_last() == c@.subrange(0, i as int));
        }
        if c[i] != '\r' {
            out.push(c[i]);
        }
        i = i + 1;
    }
    assert(c@.subrange(0, c@.len() as int) == c@);
    string_of(out.as_slice())
}

/// The text a log is read as: raw, or without escapes and carriage
/// returns.
pub open spec fn plain_log_text(text: Seq<char>, raw: bool) -> Seq<char> {
    if raw {
        text
    } else {
        without_cr(read_text(ansi_free_from(encode_utf8(text), 0)))
    }
}

pub fn plain_log(text: &str, raw: bool) -> (r: String)
    ensures
        r@ == plain_log_text(text@, raw),
{
    if raw {
        string_of(chars_of(text).as_slice())
    } else {
        let s = strip_ansi(text);
        remove_carriage_returns(s.as_str())
    }
}

/// The last `limit` non-blank lines of a session log.
pub fn tail_lines(text: &str, limit: usize, raw: bool) -> (r: Vec<String>)
    ensures
        str_views(r@) == last_of(keep_visible(lines(plain_log_text(text@, raw))), limit as nat),
{
    let t = plain_log(text, raw);
    let ls = crate::output::text_lines(t.as_str());
    let vis = crate::output::normalize_list_lines(ls);
    crate::output::last_lines(vis, limit)
}

/// The last `limit` lines of the log as `capture --tail` prints them.
pub fn capture_tail(text: &str, limit: usize, raw: bool) -> (r: Vec<String>)
    ensures
        str_views(r@) == last_of(lines(plain_log_text(text@, raw)), limit as nat),
{
    let t = plain_log(text, raw);
    crate::output::last_lines(crate::output::text_lines(t.as_str()), limit)
}

// ---------------------------------------------------------------------------
// Keys and packets
// ---------------------------------------------------------------------------

/// Ctrl-D or Ctrl-\ leaves a session.
pub fn is_detach_key(byte: u8) -> (r: bool)
    ensures
        r == (byte == 0x04 || byte == 0x1c),
{
    byte == 0x04 || byte == 0x1c
}

/// A packet's payload room: one window size record.
pub const PACKET_ROOM: usize = 8;

/// A fixed-size packet: type, payload length, and eight payload bytes.
pub struct FixedPacket {
    pub typ: u8,
    pub len: u8,
    pub buf: [u8; 8],
}

/// The ten bytes sent for a packet: the payload is cut to eight bytes and
/// padded with zeros.
pub open spec fn fixed_frame(typ: u8, payload: Seq<u8>) -> Seq<u8> {
    let n = if payload.len() < 8 {
        payload.len()
    } else {
        8
    };
    seq![typ, n as u8] + payload.subrange(0, n as int) + Seq::new((8 - n) as nat, |i: int| 0u8)
}

pub fn encode_fixed_packet(typ: u8, payload: &[u8]) -> (r: [u8; 10])
    ensures
        r@ == fixed_frame(typ, payload@),
{
    let n: usize = if payload.len() < 8 {
        payload.len()
    } else {
        8
    };
    let mut buf: [u8; 10] = [0u8; 10];
    buf[0] = typ;
    buf[1] = n as u8;
    let mut i: usize = 0;
    while i < n
        invariant
            n <= 8,
            n <= payload@.len(),
            i <= n,
            buf@.len() == 10,
            buf@[0] == typ,
            buf@[1] == n as u8,
            forall|k: int| 0 <= k < i ==> buf@[2 + k] == payload@[k],
            forall|k: int| 2 + i <= k < 10 ==> buf@[k] == 0,
        decreases n - i,
    {
        buf[2 + i] = payload[i];
        i = i + 1;
    }
    assert(buf@ =~= fixed_frame(typ, payload@));
    buf
}

pub fn decode_fixed_packet(raw: &[u8; 10]) -> (r: FixedPacket)
    ensures
        r.typ == raw@[0],
        r.len == raw@[1],
        r.buf@ == raw@.subrange(2, 10),
{
    let mut buf: [u8; 8] = [0u8; 8];
    let mut i: usize = 0;
    while i < 8
        invariant
            i <= 8,
            buf@.len() == 8,
            raw@.len() == 10,
            forall|k: int| 0 <= k < i ==> buf@[k] == raw@[2 + k],
        decreases 8 - i,
    {
        buf[i] = raw[2 + i];
        i = i + 1;
    }
    assert(buf@ =~= raw@.subrange(2, 10));
    FixedPacket { typ: raw[0], len: raw[1], buf }
}

/// Law: a packet read back from its ten bytes has its type, the length of
/// the payload (at most eight) and the payload's first bytes.
pub proof fn lemma_fixed_roundtrip(typ: u8, payload: Seq<u8>)
    ensures
        fixed_frame(typ, payload)[0] == typ,
        fixed_frame(typ, payload)[1] == (if payload.len() < 8 {
            payload.len()
        } else {
            8
        }) as u8,
        forall|k: int|
            0 <= k < payload.len() && k < 8 ==> #[trigger] fixed_frame(typ, payload).subrange(2, 10)[k]
                == payload[k],
{
    let f = fixed_frame(typ, payload);
    assert forall|k: int| 0 <= k < payload.len() && k < 8 implies #[trigger] f.subrange(2, 10)[k]
        == payload[k] by {
        assert(f.subrange(2, 10)[k] == f[2 + k]);
    }
}

/// The typed bytes a push packet carries; a length over eight cannot be
/// read from the packet's room.
pub fn pushed_bytes(p: &FixedPacket) -> (r: Vec<u8>)
    requires
        p.len <= 8,
    ensures
        r@ == p.buf@.subrange(0, p.len as int),
{
    let n = p.len as usize;
    let mut out: Vec<u8> = Vec::new();
    let mut i: usize = 0;
    while i < n
        invariant
            n == p.len,
            n <= 8,
            p.buf@.len() == 8,
            i <= n,
            out@ == p.buf@.subrange(0, i as int),
        decreases n - i,
    {
        out.push(p.buf[i]);
        i = i + 1;
        assert(out@ =~= p.buf@.subrange(0, i as int));
    }
    out
}

/// Typed input split into packet-sized pieces.
pub fn payload_chunks(payload: &[u8]) -> (r: Vec<Vec<u8>>)
    ensures
        r@.len() == (payload@.len() + 7) / 8,
        forall|k: int| #![trigger r@[k]] 0 <= k < r@.len() ==> r@[k]@ == payload@.subrange(
            8 * k,
            if 8 * k + 8 < payload@.len() {
                8 * k + 8
            } else {
                payload@.len() as int
            },
        ),
{
    let n = payload.len();
    let mut out: Vec<Vec<u8>> = Vec::new();
    let mut start: usize = 0;
    while start < n
        invariant
            n == payload@.len(),
            start <= n,
            start == 8 * out@.len() || (start == n && n < 8 * out@.len() < n + 8),
            forall|k: int| #![trigger out@[k]] 0 <= k < out@.len() ==> out@[k]@ == payload@.subrange(
                8 * k,
                if 8 * k + 8 < payload@.len() {
                    8 * k + 8
                } else {
                    payload@.len() as int
                },
            ),
        decreases n - start,
    {
        let end = if n - start > 8 {
            start + 8
        } else {
            n
        };
        let mut chunk: Vec<u8> = Vec::new();
        let mut i = start;
        while i < end
            invariant
                start <= i <= end <= n,
                n == payload@.len(),
                chunk@ == payload@.subrange(start as int, i as int),
            decreases end - i,
        {
            chunk.push(payload[i]);
            i = i + 1;
            assert(chunk@ =~= payload@.subrange(start as int, i as int));
        }
        let ghost before = out@;
        out.push(chunk);
        proof {
            assert forall|k: int| #![trigger out@[k]] 0 <= k < out@.len() implies out@[k]@ == payload@.subrange(
                8 * k,
                if 8 * k + 8 < payload@.len() {
                    8 * k + 8
                } else {
                    payload@.len() as int
                },
            ) by {
                if k < before.len() {
                    assert(out@[k] == before[k]);
                }
            }
        }
        proof {
            assert(end == 8 * out@.len() || (end == n && n < 8 * out@.len() < n + 8));
        }
        start = end;
    }
    proof {
        let l = out@.len() as int;
        if n == 8 * l {
            assert((n + 7) / 8 == l) by (nonlinear_arith)
                requires
                    n == 8 * l,
            ;
        } else {
            assert((n + 7) / 8 == l) by (nonlinear_arith)
                requires
                    n < 8 * l < n + 8,
            ;
        }
    }
    out
}

/// A socket file whose owner-execute bit is set has a client attached.
pub fn socket_attached(mode: u32) -> (r: bool)
    ensures
        r == (mode & 0o100u32 != 0),
{
    mode & 0o100u32 != 0
}

/// The command shown for a session: what `ps` reported for its shell
/// process, or the shell it was started with.
pub fn session_command(ps_output: Option<String>, shell: &str) -> (r: String)
    ensures
        r@ == (match ps_output {
            Some(c) => c@,
            None => shell@,
        }),
{
    match ps_output {
        Some(c) => c,
        None => string_of(chars_of(shell).as_slice()),
    }
}

// ---------------------------------------------------------------------------
// Listing sessions
// ---------------------------------------------------------------------------

/// The `muxi` colors: the name and ids in green, labels dimmed, states
/// plain.
#[derive(Debug, Clone, Copy, PartialEq, Eq, Structural)]
pub struct MuxiStyle {
    pub enabled: bool,
}

impl MuxiStyle {
    pub fn brand(&self) -> (r: String)
        ensures
            r@ == painted(self.enabled, "muxi"@, GREEN@),
    {
        Style::colored(self.enabled).paint("muxi", GREEN)
    }

    pub fn id(&self, value: &str) -> (r: String)
        ensures
            r@ == painted(self.enabled, value@, GREEN@),
    {
        Style::colored(self.enabled).paint(value, GREEN)
    }

    pub fn label(&self, value: &str) -> (r: String)
        ensures
            r@ == painted(self.enabled, value@, DIM@),
    {
        Style::colored(self.enabled).paint(value, DIM)
    }

    pub fn muted(&self, value: &str) -> (r: String)
        ensures
            r@ == painted(self.enabled, value@, DIM@),
    {
        Style::colored(self.enabled).paint(value, DIM)
    }

    /// Paths, commands, successes and errors are shown plain.
    pub fn plain_text(&self, value: &str) -> (r: String)
        ensures
            r@ == value@,
    {
        string_of(chars_of(value).as_slice())
    }
}

/// What one listed session shows.
pub struct SessionListing {
    pub id: String,
    pub cwd: String,
    pub command: String,
    pub attached: bool,
    pub tail: Vec<String>,
}

/// 32 box-drawing dashes.
pub open spec fn rule() -> Seq<char> {
    Seq::new(32, |i: int| '\u{2500}')
}

/// The lines printed for one session in a listing.
pub open spec fn listing_text(e: bool, s: &SessionListing) -> Seq<Seq<char>> {
    let head = seq![
        painted(e, "session"@, DIM@) + " "@ + painted(e, s.id@, GREEN@) + " "@ + painted(
            e,
            rule(),
            DIM@,
        ),
        painted(e, "dir"@, DIM@) + " "@ + s.cwd@,
        painted(e, "cmd"@, DIM@) + " "@ + s.command@,
        painted(e, "status"@, DIM@) + " "@ + "running"@,
        painted(e, "attached"@, DIM@) + " "@ + (if s.attached {
            "yes"@
        } else {
            painted(e, "no"@, DIM@)
        }),
    ];
    let tail = if s.tail@.len() > 0 {
        seq![
            seq![],
            painted(e, "output tail ("@ + decimal(s.tail@.len()) + " lines)"@, DIM@),
        ] + str_views(s.tail@).map_values(|l: Seq<char>| "  "@ + painted(e, l, DIM@))
    } else {
        seq![]
    };
    head + tail + seq![seq![]]
}

fn push_joined(out: &mut Vec<String>, a: String, b: &str)
    ensures
        str_views(final(out)@) == str_views(old(out)@).push(a@ + " "@ + b@),
{
    let mut v = chars_of(a.as_str());
    crate::text::push_str(&mut v, " ");
    crate::text::push_str(&mut v, b);
    let l = string_of(v.as_slice());
    let ghost before = out@;
    out.push(l);
    proof {
        assert(out@ == before.push(l));
        assert(str_views(out@) =~= str_views(before).push(l@));
    }
}

/// The lines of one session in `muxi list`.
pub fn listing_lines(style: MuxiStyle, s: &SessionListing) -> (r: Vec<String>)
    ensures
        str_views(r@) == listing_text(style.enabled, s),
{
    let ghost e = style.enabled;
    let mut out: Vec<String> = Vec::new();
    let mut dashes: Vec<char> = Vec::new();
    let mut k: usize = 0;
    while k < 32
        invariant
            k <= 32,
            dashes@ =~= rule().subrange(0, k as int),
        decreases 32 - k,
    {
        dashes.push('\u{2500}');
        k = k + 1;
    }
    assert(dashes@ =~= rule());
    let dash_str = string_of(dashes.as_slice());
    let mut first = chars_of(style.muted("session").as_str());
    crate::text::push_str(&mut first, " ");
    crate::text::push_str(&mut first, style.id(s.id.as_str()).as_str());
    crate::text::push_str(&mut first, " ");
    crate::text::push_str(&mut first, style.muted(dash_str.as_str()).as_str());
    let l0 = string_of(first.as_slice());
    out.push(l0);
    assert(str_views(out@) =~= seq![l0@]);
    push_joined(&mut out, style.label("dir"), s.cwd.as_str());
    push_joined(&mut out, style.label("cmd"), s.command.as_str());
    push_joined(&mut out, style.label("status"), "running");
    if s.attached {
        push_joined(&mut out, style.label("attached"), "yes");
    } else {
        let no = style.muted("no");
        push_joined(&mut out, style.label("attached"), no.as_str());
    }
    let ghost head = str_views(out@);
    if s.tail.len() > 0 {
        let empty_line = String::new();
        out.push(empty_line);
        let mut t: Vec<char> = Vec::new();
        crate::text::push_str(&mut t, "output tail (");
        push_decimal(&mut t, s.tail.len() as u128);
        crate::text::push_str(&mut t, " lines)");
        let ts = string_of(t.as_slice());
        let m = style.muted(ts.as_str());
        out.push(m);
        let ghost base = str_views(out@);
        proof {
            assert(base =~= head + seq![
                seq![],
                painted(e, "output tail ("@ + decimal(s.tail@.len()) + " lines)"@, DIM@),
            ]);
        }
        let mut i: usize = 0;
        while i < s.tail.len()
            invariant
                i <= s.tail@.len(),
                str_views(out@) == base + str_views(s.tail@).map_values(|l: Seq<char>| "  "@ + painted(e, l, DIM@)).subrange(0, i as int),
                e == style.enabled,
            decreases s.tail@.len() - i,
        {
            let mut l: Vec<char> = Vec::new();
            crate::text::push_str(&mut l, "  ");
            let m = style.muted(s.tail[i].as_str());
            crate::text::push_str(&mut l, m.as_str());
            let ls = string_of(l.as_slice());
            let ghost before = str_views(out@);
            out.push(ls);
            i = i + 1;
            assert(str_views(out@) =~= before.push(ls@));
            assert(str_views(out@) =~= base + str_views(s.tail@).map_values(|l: Seq<char>| "  "@ + painted(e, l, DIM@)).subrange(0, i as int));
        }
        assert(str_views(s.tail@).map_values(|l: Seq<char>| "  "@ + painted(e, l, DIM@)).subrange(0, s.tail@.len() as int)
            =~= str_views(s.tail@).map_values(|l: Seq<char>| "  "@ + painted(e, l, DIM@)));
    }
    let ghost before_end = str_views(out@);
    let empty = String::new();
    out.push(empty);
    proof {
        let tail_part = if s.tail@.len() > 0 {
            seq![
                seq![],
                painted(e, "output tail ("@ + decimal(s.tail@.len()) + " lines)"@, DIM@),
            ] + str_views(s.tail@).map_values(|l: Seq<char>| "  "@ + painted(e, l, DIM@))
        } else {
            seq![]
        };
        assert(str_views(out@) =~= before_end.push(Seq::<char>::empty()));
        if s.tail@.len() > 0 {
            assert(before_end =~= head + tail_part);
        } else {
            assert(before_end =~= head + tail_part);
        }
        assert(head + tail_part + seq![Seq::<char>::empty()] =~= listing_text(e, s));
    }
    out
}

/// The line printed when no session matches.
pub fn no_sessions_line(style: MuxiStyle) -> (r: String)
    ensures
        r@ == painted(style.enabled, "muxi"@, GREEN@) + seq![' '] + painted(
            style.enabled,
            "no matching sessions"@,
            DIM@,
        ),
{
    let mut v = chars_of(style.brand().as_str());
    v.push(' ');
    crate::text::push_str(&mut v, style.muted("no matching sessions").as_str());
    string_of(v.as_slice())
}

// ---------------------------------------------------------------------------
// Sessions and messages
// ---------------------------------------------------------------------------

/// `$XDG_STATE_HOME/muxi`, else `$HOME/.local/state/muxi` (`.` for a
/// missing `HOME`).
pub fn state_dir(xdg_state_home: Option<&str>, home: Option<&str>) -> (r: String)
    ensures
        r@ == (match xdg_state_home {
            Some(x) => crate::paths::join(x@, "muxi"@),
            None => match home {
                Some(h) => crate::paths::join(h@, ".local/state/muxi"@),
                None => crate::paths::join(seq!['.'], ".local/state/muxi"@),
            },
        }),
{
    proof {
        reveal_strlit(".");
    }
    match xdg_state_home {
        Some(x) => crate::paths::path_join(x, "muxi"),
        None => match home {
            Some(h) => crate::paths::path_join(h, ".local/state/muxi"),
            None => crate::paths::path_join(".", ".local/state/muxi"),
        },
    }
}

/// The session a (partial) id names: the only one whose id starts with
/// it; `NotFound` when none does, `InvalidInput` when several do or no id
/// was given.
pub fn select_session(id: Option<&str>, ids: &[String]) -> (r: Result<usize, crate::error::HitchError>)
    ensures
        id is None ==> (r matches Err(e) && e.kind == crate::error::ErrorKind::InvalidInput
            && e.message@ == "missing session"@),
        id matches Some(p) ==> (r is Ok <==> crate::session::count_prefixed(ids@, p@, ids@.len() as int) == 1),
        id matches Some(p) ==> (r matches Ok(i) ==> i < ids@.len() && crate::text::starts_with(
            ids@[i as int]@,
            p@,
        )),
        id matches Some(p) ==> (crate::session::count_prefixed(ids@, p@, ids@.len() as int) == 0 <==> (r matches Err(
            e,
        ) && e.kind == crate::error::ErrorKind::NotFound && e.message@ == "no such muxi session: "@ + p@)),
        id matches Some(p) ==> (crate::session::count_prefixed(ids@, p@, ids@.len() as int) > 1 <==> (r matches Err(
            e,
        ) && e.kind == crate::error::ErrorKind::InvalidInput && e.message@ == "ambiguous muxi session: "@ + p@)),
{
    let p = match id {
        None => {
            return Err(HitchError::new(ErrorKind::InvalidInput, "missing session"));
        },
        Some(p) => p,
    };
    match crate::session::select_session(Some(p), ids) {
        Ok(i) => Ok(i),
        Err(e) => {
            let mut m: Vec<char> = Vec::new();
            if e.kind == ErrorKind::NotFound {
                push_str(&mut m, "no such muxi session: ");
            } else {
                push_str(&mut m, "ambiguous muxi session: ");
            }
            push_str(&mut m, p);
            Err(HitchError::with_message(e.kind, string_of(m.as_slice())))
        },
    }
}

/// A new session cannot start inside another: `AlreadyExists`.
pub fn check_not_inside(session_env: Option<&str>) -> (r: Result<(), crate::error::HitchError>)
    ensures
        r is Ok <==> session_env is None,
        r matches Err(e) ==> session_env matches Some(s) && e.kind
            == crate::error::ErrorKind::AlreadyExists && e.message@ == "already inside muxi session "@
            + s@,
{
    match session_env {
        None => Ok(()),
        Some(s) => {
            let mut v: Vec<char> = Vec::new();
            push_str(&mut v, "already inside muxi session ");
            push_str(&mut v, s);
            Err(crate::error::HitchError::with_message(
                crate::error::ErrorKind::AlreadyExists,
                string_of(v.as_slice()),
            ))
        },
    }
}

/// `<brand> <verb> session <id> (Ctrl-\ to exit)`: shown when a session
/// is started (`joined`) or joined (`attached`).
pub open spec fn session_banner_text(e: bool, verb: Seq<char>, id: Seq<char>) -> Seq<char> {
    painted(e, "muxi"@, GREEN@) + " "@ + verb + " session "@ + painted(e, id, GREEN@) + " "@
        + painted(e, "(Ctrl-\\ to exit)"@, DIM@)
}

pub fn session_banner(style: MuxiStyle, verb: &str, id: &str) -> (r: String)
    ensures
        r@ == session_banner_text(style.enabled, verb@, id@),
{
    let mut v: Vec<char> = Vec::new();
    push_str(&mut v, style.brand().as_str());
    push_str(&mut v, " ");
    push_str(&mut v, verb);
    push_str(&mut v, " session ");
    push_str(&mut v, style.id(id).as_str());
    push_str(&mut v, " ");
    push_str(&mut v, style.muted("(Ctrl-\\ to exit)").as_str());
    string_of(v.as_slice())
}

/// `[muxi exited session <id>]`, dimmed.
pub fn exit_message(style: MuxiStyle, id: &str) -> (r: String)
    ensures
        r@ == painted(style.enabled, "[muxi exited session "@ + id@ + "]"@, DIM@),
{
    let mut v: Vec<char> = Vec::new();
    push_str(&mut v, "[muxi exited session ");
    push_str(&mut v, id);
    push_str(&mut v, "]");
    let m = string_of(v.as_slice());
    style.muted(m.as_str())
}

/// What `muxi info` prints inside a session (`MUXI_SESSION`), or the
/// `NotFound` error outside one.
pub fn info_lines(style: MuxiStyle, session: Option<&str>, socket: Option<&str>, debug: bool) -> (r: Result<
    Vec<String>,
    crate::error::HitchError,
>)
    ensures
        r is Err <==> session is None,
        r matches Err(e) ==> e.kind == crate::error::ErrorKind::NotFound && e.message@
            == "not inside a muxi session"@,
        r matches Ok(v) ==> session matches Some(id) && str_views(v@) == (if debug && socket is Some {
            seq![
                "currently in the session "@ + painted(style.enabled, id@, GREEN@),
                "socket "@ + socket->0@,
            ]
        } else {
            seq!["currently in the session "@ + painted(style.enabled, id@, GREEN@)]
        }),
{
    let id = match session {
        None => {
            return Err(crate::error::HitchError::new(
                crate::error::ErrorKind::NotFound,
                "not inside a muxi session",
            ));
        },
        Some(id) => id,
    };
    let mut out: Vec<String> = Vec::new();
    let mut v: Vec<char> = Vec::new();
    push_str(&mut v, "currently in the session ");
    push_str(&mut v, style.id(id).as_str());
    out.push(string_of(v.as_slice()));
    if debug {
        if let Some(sock) = socket {
            let mut w: Vec<char> = Vec::new();
            push_str(&mut w, "socket ");
            push_str(&mut w, sock);
            out.push(string_of(w.as_slice()));
        }
    }
    proof {
        assert(str_views(out@) =~= (if debug && socket is Some {
            seq![
                "currently in the session "@ + painted(style.enabled, id@, GREEN@),
                "socket "@ + socket->0@,
            ]
        } else {
            seq!["currently in the session "@ + painted(style.enabled, id@, GREEN@)]
        }));
    }
    Ok(out)
}

/// What a fixed-size packet asks of the master: typed input, attach,
/// detach, or a window size (always read from the packet's room).
pub fn fixed_packet_action(typ: u8) -> (r: crate::protocol::PacketAction)
    ensures
        r == (if typ == 0 {
            crate::protocol::PacketAction::WriteInput
        } else if typ == 1 {
            crate::protocol::PacketAction::Attach
        } else if typ == 2 {
            crate::protocol::PacketAction::Detach
        } else if typ == 3 {
            crate::protocol::PacketAction::Resize
        } else {
            crate::protocol::PacketAction::Ignore
        }),
{
    if typ == 0 {
        crate::protocol::PacketAction::WriteInput
    } else if typ == 1 {
        crate::protocol::PacketAction::Attach
    } else if typ == 2 {
        crate::protocol::PacketAction::Detach
    } else if typ == 3 {
        crate::protocol::PacketAction::Resize
    } else {
        crate::protocol::PacketAction::Ignore
    }
}

} // verus!
