//! Streaming filters over terminal output.
//!
//! * [`TitleFilter`] removes or rewrites window-title sequences
//!   (`ESC ] 0|1|2 ; title BEL` or `... ESC \`).
//! * [`AltScreenLogFilter`] drops what a full-screen program draws on the
//!   alternate screen, so that logs keep only normal output.
//! * [`AltScreenTracker`] only follows whether the alternate screen is active.
//!
//! Each is a byte-at-a-time state machine: its meaning is given by a step
//! function (state, byte) -> (state, output) and its fold over the input.
//! Because the state carries over between calls, feeding input in pieces gives
//! the same result as feeding it at once (see the `lemma_*_chunks` laws).
use vstd::prelude::*;
use vstd::utf8::{decode_utf8, encode_utf8, valid_utf8};
use crate::paths::{shorten_home, shortened};
use crate::text::{
    char_is_space, find_char, find_char_from, is_space, lemma_find_char_from_props, slice_chars,
    trim, trim_bounds, chars_of,
};
use crate::utf8::{decode, str_bytes};

verus! {

// ---------------------------------------------------------------------------
// Shell idle titles: `user@host:path`
// ---------------------------------------------------------------------------

pub open spec fn is_alnum(c: char) -> bool {
    ('a' <= c && c <= 'z') || ('A' <= c && c <= 'Z') || ('0' <= c && c <= '9')
}

/// A character allowed in the user part of a shell title. (Testing the
/// characters is the same as testing the UTF-8 bytes: a non-ASCII character
/// has only bytes of 0x80 and up, which are never allowed.)
pub open spec fn is_name_char(c: char) -> bool {
    is_alnum(c) || c == '.' || c == '_' || c == '-'
}

/// A character allowed in the host part of a shell title.
pub open spec fn is_host_char(c: char) -> bool {
    is_alnum(c) || c == '.' || c == '-'
}

pub open spec fn title_name(v: Seq<char>) -> bool {
    v.len() > 0 && forall|i: int| 0 <= i < v.len() ==> is_name_char(#[trigger] v[i])
}

pub open spec fn title_host(v: Seq<char>) -> bool {
    v.len() > 0 && forall|i: int| 0 <= i < v.len() ==> is_host_char(#[trigger] v[i])
}

/// The title a shell sets when idle: `user@host:path`, split at the first
/// `@` and then the first `:`, with a non-empty path that has no whitespace.
pub open spec fn shell_idle_title(t: Seq<char>) -> bool {
    match find_char_from(t, '@', 0) {
        None => false,
        Some(a) => {
            let user = t.subrange(0, a);
            let rest = t.subrange(a + 1, t.len() as int);
            match find_char_from(rest, ':', 0) {
                None => false,
                Some(c) => {
                    let host = rest.subrange(0, c);
                    let path = rest.subrange(c + 1, rest.len() as int);
                    &&& title_name(user)
                    &&& title_host(host)
                    &&& path.len() > 0
                    &&& forall|i: int| 0 <= i < path.len() ==> !is_space(#[trigger] path[i])
                }
            }
        },
    }
}

/// Searching `t[a..]` from its start finds what searching `t` from `a` finds,
/// shifted by `a`.
pub proof fn lemma_find_char_shift(t: Seq<char>, c: char, a: int)
    requires
        0 <= a <= t.len(),
    ensures
        find_char_from(t.subrange(a, t.len() as int), c, 0) == (match find_char_from(t, c, a) {
            Some(k) => Some(k - a),
            None => None,
        }),
{
    let r = t.subrange(a, t.len() as int);
    lemma_find_char_from_props(t, c, a);
    lemma_find_char_from_props(r, c, 0);
    match find_char_from(t, c, a) {
        Some(k) => {
            assert(r[k - a] == t[k]);
            match find_char_from(r, c, 0) {
                Some(k2) => {
                    assert(r[k2] == t[k2 + a]);
                    if k2 < k - a {
                        assert(t[k2 + a] != c);
                    }
                    if k2 > k - a {
                        assert(r[k - a] != c);
                    }
                },
                None => {
                    assert(r[k - a] != c);
                },
            }
        },
        None => {
            match find_char_from(r, c, 0) {
                Some(k2) => {
                    assert(r[k2] == t[k2 + a]);
                },
                None => {},
            }
        },
    }
}

fn all_name_chars(v: &[char], a: usize, b: usize, host: bool) -> (r: bool)
    requires
        a <= b <= v@.len(),
    ensures
        r == (if host {
            title_host(v@.subrange(a as int, b as int))
        } else {
            title_name(v@.subrange(a as int, b as int))
        }),
{
    let ghost s = v@.subrange(a as int, b as int);
    if a == b {
        return false;
    }
    let mut i = a;
    while i < b
        invariant
            a <= i <= b <= v@.len(),
            s == v@.subrange(a as int, b as int),
            forall|j: int|
                0 <= j < i - a ==> (if host {
                    is_host_char(#[trigger] s[j])
                } else {
                    is_name_char(s[j])
                }),
        decreases b - i,
    {
        let c = v[i];
        let alnum = ('a' <= c && c <= 'z') || ('A' <= c && c <= 'Z') || ('0' <= c && c <= '9');
        let ok = if host {
            alnum || c == '.' || c == '-'
        } else {
            alnum || c == '.' || c == '_' || c == '-'
        };
        proof {
            assert(s[i - a] == c);
        }
        if !ok {
            return false;
        }
        i = i + 1;
    }
    true
}

#[verifier::loop_isolation(false)]
fn idle_title_chars(t: &[char]) -> (r: bool)
    ensures
        r == shell_idle_title(t@),
{
    let n = t.len();
    match find_char(t, '@', 0) {
        None => false,
        Some(a) => {
            proof {
                lemma_find_char_from_props(t@, '@', 0);
                lemma_find_char_shift(t@, ':', a + 1);
            }
            match find_char(t, ':', a + 1) {
                None => false,
                Some(c) => {
                    proof {
                        lemma_find_char_from_props(t@, ':', a + 1);
                        let rest = t@.subrange(a + 1, n as int);
                        let cc = c - (a + 1);
                        assert(rest.subrange(0, cc) == t@.subrange(a + 1, c as int));
                        assert(rest.subrange(cc + 1, rest.len() as int) == t@.subrange(
                            c + 1,
                            n as int,
                        ));
                    }
                    if !all_name_chars(t, 0, a, false) {
                        return false;
                    }
                    if !all_name_chars(t, a + 1, c, true) {
                        return false;
                    }
                    if c + 1 >= n {
                        return false;
                    }
                    let ghost path = t@.subrange(c + 1, n as int);
                    let mut i = c + 1;
                    while i < n
                        invariant
                            c + 1 <= i <= n == t@.len(),
                            path == t@.subrange(c + 1, n as int),
                            forall|j: int| 0 <= j < i - (c + 1) ==> !is_space(#[trigger] path[j]),
                        decreases n - i,
                    {
                        proof {
                            assert(path[i - (c + 1)] == t@[i as int]);
                        }
                        if char_is_space(t[i]) {
                            return false;
                        }
                        i = i + 1;
                    }
                    true
                },
            }
        },
    }
}

/// Whether a title is what an idle shell sets (`user@host:path`).
pub fn is_shell_idle_title(title: &str) -> (r: bool)
    ensures
        r == shell_idle_title(title@),
{
    let t = chars_of(title);
    idle_title_chars(t.as_slice())
}

/// A non-empty run of ASCII letters, digits, `.`, `_` and `-`.
pub fn is_shell_title_name(value: &str) -> (r: bool)
    ensures
        r == title_name(value@),
{
    let v = chars_of(value);
    proof {
        assert(v@.subrange(0, v@.len() as int) == v@);
    }
    all_name_chars(v.as_slice(), 0, v.len(), false)
}

/// A non-empty run of ASCII letters, digits, `.` and `-`.
pub fn is_shell_title_host(value: &str) -> (r: bool)
    ensures
        r == title_host(value@),
{
    let v = chars_of(value);
    proof {
        assert(v@.subrange(0, v@.len() as int) == v@);
    }
    all_name_chars(v.as_slice(), 0, v.len(), true)
}

// ---------------------------------------------------------------------------
// TitleFilter
// ---------------------------------------------------------------------------

pub enum TitleFilterMode {
    Strip,
    Rewrite { prefix: Vec<u8> },
}

/// Removes window-title sequences (strip mode) or rewrites them to start with
/// a terminal tag (rewrite mode); in rewrite mode an idle shell title is
/// replaced by the current directory.
pub struct TitleFilter {
    state: u8,
    code: u8,
    title: Vec<u8>,
    mode: TitleFilterMode,
    cwd: Option<String>,
    home: Option<String>,
}

/// The abstract state of a [`TitleFilter`].
pub struct TitleFilterView {
    pub state: u8,
    pub code: u8,
    pub title: Seq<u8>,
    /// `None` in strip mode; the tag put before each title in rewrite mode.
    pub prefix: Option<Seq<u8>>,
    pub cwd: Option<Seq<char>>,
    pub home: Option<Seq<char>>,
}

pub open spec fn opt_view(o: Option<String>) -> Option<Seq<char>> {
    match o {
        Some(s) => Some(s@),
        None => None,
    }
}

impl View for TitleFilter {
    type V = TitleFilterView;

    closed spec fn view(&self) -> TitleFilterView {
        TitleFilterView {
            state: self.state,
            code: self.code,
            title: self.title@,
            prefix: match self.mode {
                TitleFilterMode::Strip => None,
                TitleFilterMode::Rewrite { prefix } => Some(prefix@),
            },
            cwd: opt_view(self.cwd),
            home: opt_view(self.home),
        }
    }
}

/// The title shown in place of an idle shell title: the current directory
/// (home shortened), when one is known and the title is idle.
pub open spec fn normalized_title(v: TitleFilterView) -> Option<Seq<char>> {
    match v.cwd {
        None => None,
        Some(cwd) => if valid_utf8(v.title) && shell_idle_title(trim(decode_utf8(v.title))) {
            Some(shortened(cwd, v.home))
        } else {
            None
        },
    }
}

/// What a finished title sequence becomes: nothing in strip mode; in rewrite
/// mode the same sequence with the tag before the (possibly normalized) title.
pub open spec fn title_emission(v: TitleFilterView, terminator: Seq<u8>) -> Seq<u8> {
    match v.prefix {
        None => seq![],
        Some(p) => seq![0x1bu8, 0x5du8, v.code, 0x3bu8] + p + (match normalized_title(v) {
            Some(t) => encode_utf8(t),
            None => v.title,
        }) + terminator,
    }
}

pub open spec fn with_state(v: TitleFilterView, state: u8) -> TitleFilterView {
    TitleFilterView { state, ..v }
}

/// One byte through the title filter: (next state, bytes written).
pub open spec fn title_step(v: TitleFilterView, b: u8) -> (TitleFilterView, Seq<u8>) {
    if v.state == 0 {
        if b == 0x1b {
            (with_state(v, 1), seq![])
        } else {
            (v, seq![b])
        }
    } else if v.state == 1 {
        if b == 0x5d {
            (with_state(v, 2), seq![])
        } else {
            (with_state(v, 0), seq![0x1bu8, b])
        }
    } else if v.state == 2 {
        if b == 0x30 || b == 0x31 || b == 0x32 {
            (TitleFilterView { state: 3, code: b, ..v }, seq![])
        } else {
            (with_state(v, 0), seq![0x1bu8, 0x5du8, b])
        }
    } else if v.state == 3 {
        if b == 0x3b {
            (TitleFilterView { state: 4, title: seq![], ..v }, seq![])
        } else {
            (with_state(v, 0), seq![0x1bu8, 0x5du8, v.code, b])
        }
    } else if v.state == 4 {
        if b == 0x07 {
            (with_state(v, 0), title_emission(v, seq![0x07u8]))
        } else if b == 0x1b {
            (with_state(v, 5), seq![])
        } else {
            (TitleFilterView { title: v.title.push(b), ..v }, seq![])
        }
    } else if v.state == 5 {
        if b == 0x5c {
            (with_state(v, 0), title_emission(v, seq![0x1bu8, 0x5cu8]))
        } else {
            (TitleFilterView { state: 4, title: v.title + seq![0x1bu8, b], ..v }, seq![])
        }
    } else {
        (with_state(v, 0), seq![])
    }
}

/// The title filter run over `input`: (final state, all bytes written).
pub open spec fn title_run(v: TitleFilterView, input: Seq<u8>) -> (TitleFilterView, Seq<u8>)
    decreases input.len(),
{
    if input.len() == 0 {
        (v, seq![])
    } else {
        let (v1, o1) = title_run(v, input.drop_last());
        let (v2, o2) = title_step(v1, input.last());
        (v2, o1 + o2)
    }
}

/// Law: filtering `a` and then `b` writes what filtering `a + b` writes and
/// ends in the same state.
pub proof fn lemma_title_chunks(v: TitleFilterView, a: Seq<u8>, b: Seq<u8>)
    ensures
        title_run(v, a + b) == (title_run(title_run(v, a).0, b).0, title_run(v, a).1 + title_run(
            title_run(v, a).0,
            b,
        ).1),
    decreases b.len(),
{
    if b.len() == 0 {
        assert(a + b == a);
        assert(title_run(v, a).1 + Seq::<u8>::empty() == title_run(v, a).1);
    } else {
        assert((a + b).drop_last() == a + b.drop_last());
        assert((a + b).last() == b.last());
        lemma_title_chunks(v, a, b.drop_last());
        let m = title_run(v, a);
        let r = title_run(m.0, b.drop_last());
        let s = title_step(r.0, b.last());
        assert(m.1 + r.1 + s.1 == m.1 + (r.1 + s.1));
    }
}

/// Law: from the ground state, bytes with no ESC pass through unchanged.
pub proof fn lemma_title_plain_text(v: TitleFilterView, input: Seq<u8>)
    requires
        v.state == 0,
        forall|i: int| 0 <= i < input.len() ==> input[i] != 0x1b,
    ensures
        title_run(v, input) == (v, input),
    decreases input.len(),
{
    if input.len() > 0 {
        lemma_title_plain_text(v, input.drop_last());
        assert(input.drop_last().push(input.last()) == input);
        assert(input.last() == input[input.len() - 1]);
    }
}

/// Law: an OSC sequence whose code is not a title code (0, 1 or 2), such
/// as a working-directory report (OSC 7), a link (OSC 8) or a prompt mark
/// (OSC 133), passes through the filter unchanged in either mode, and the
/// filter is back between sequences afterwards.
pub proof fn lemma_other_osc_passes(v: TitleFilterView, c: u8, body: Seq<u8>)
    requires
        v.state == 0,
        c != 0x30 && c != 0x31 && c != 0x32,
        forall|i: int| 0 <= i < body.len() ==> body[i] != 0x1b,
    ensures
        title_run(v, seq![0x1bu8, 0x5du8, c] + body) == (v, seq![0x1bu8, 0x5du8, c] + body),
{
    let head = seq![0x1bu8, 0x5du8, c];
    let h1 = seq![0x1bu8];
    let h2 = seq![0x1bu8, 0x5du8];
    assert(h1.drop_last() == Seq::<u8>::empty());
    assert(h2.drop_last() == h1);
    assert(head.drop_last() == h2);
    assert(title_run(v, Seq::<u8>::empty()) == (v, Seq::<u8>::empty()));
    let r1 = title_run(v, h1);
    assert(r1 == (with_state(v, 1), seq![] + Seq::<u8>::empty()));
    let r2 = title_run(v, h2);
    assert(r2.0 == with_state(v, 2));
    assert(r2.1 =~= Seq::<u8>::empty());
    let r3 = title_run(v, head);
    assert(with_state(v, 0) == v);
    assert(r3.0 == v);
    assert(r3.1 =~= head);
    lemma_title_chunks(v, head, body);
    lemma_title_plain_text(v, body);
}

proof fn lemma_title_body(v: TitleFilterView, t: Seq<u8>)
    requires
        v.state == 4,
        forall|i: int| 0 <= i < t.len() ==> t[i] != 0x1b && t[i] != 0x07,
    ensures
        title_run(v, t) == (TitleFilterView { title: v.title + t, ..v }, Seq::<u8>::empty()),
    decreases t.len(),
{
    if t.len() == 0 {
        assert(v.title + t =~= v.title);
    } else {
        let y = t.drop_last();
        assert forall|i: int| 0 <= i < y.len() implies y[i] != 0x1b && y[i] != 0x07 by {
            assert(y[i] == t[i]);
        }
        lemma_title_body(v, y);
        let b = t.last();
        assert(b == t[t.len() - 1]);
        let w1 = TitleFilterView { title: v.title + y, ..v };
        assert(title_step(w1, b) == (TitleFilterView { title: w1.title.push(b), ..w1 }, Seq::<u8>::empty()));
        assert((v.title + y).push(b) =~= v.title + t);
        assert(Seq::<u8>::empty() + Seq::<u8>::empty() =~= Seq::<u8>::empty());
    }
}

/// A whole title sequence `ESC ] c ; t BEL` run from between sequences:
/// the state after it and what is written.
proof fn lemma_title_sequence(v: TitleFilterView, c: u8, t: Seq<u8>)
    requires
        v.state == 0,
        c == 0x30 || c == 0x31 || c == 0x32,
        forall|i: int| 0 <= i < t.len() ==> t[i] != 0x1b && t[i] != 0x07,
    ensures
        ({
            let w = TitleFilterView { state: 4, code: c, title: t, ..v };
            title_run(v, seq![0x1bu8, 0x5du8, c, 0x3bu8] + t + seq![0x07u8]) == (
                with_state(w, 0),
                title_emission(w, seq![0x07u8]),
            )
        }),
{
    let head = seq![0x1bu8, 0x5du8, c, 0x3bu8];
    assert(head.drop_last().drop_last().drop_last().drop_last() == Seq::<u8>::empty());
    assert(head.drop_last().drop_last().drop_last() == seq![0x1bu8]);
    assert(head.drop_last().drop_last() == seq![0x1bu8, 0x5du8]);
    assert(head.drop_last() == seq![0x1bu8, 0x5du8, c]);
    assert(title_run(v, Seq::<u8>::empty()) == (v, Seq::<u8>::empty()));
    let w0 = TitleFilterView { state: 4, code: c, title: Seq::<u8>::empty(), ..v };
    let r1 = title_run(v, seq![0x1bu8]);
    assert(r1.0 == with_state(v, 1));
    assert(r1.1 =~= Seq::<u8>::empty());
    let r2 = title_run(v, seq![0x1bu8, 0x5du8]);
    assert(r2.0 == with_state(v, 2));
    assert(r2.1 =~= Seq::<u8>::empty());
    let r3 = title_run(v, seq![0x1bu8, 0x5du8, c]);
    assert(r3.0 == TitleFilterView { state: 3, code: c, ..v });
    assert(r3.1 =~= Seq::<u8>::empty());
    let r = title_run(v, head);
    assert(r.0 == w0);
    assert(r.1 =~= Seq::<u8>::empty());
    lemma_title_body(w0, t);
    assert(w0.title + t =~= t);
    let w = TitleFilterView { state: 4, code: c, title: t, ..v };
    lemma_title_chunks(v, head, t);
    let ht = head + t;
    lemma_title_chunks(v, ht, seq![0x07u8]);
    let one = seq![0x07u8];
    assert(one.drop_last() == Seq::<u8>::empty());
    assert(title_run(w, Seq::<u8>::empty()) == (w, Seq::<u8>::empty()));
    assert(title_run(w, one) == (with_state(w, 0), Seq::<u8>::empty() + title_emission(w, one)));
    assert(Seq::<u8>::empty() + Seq::<u8>::empty() + (Seq::<u8>::empty() + title_emission(w, one))
        =~= title_emission(w, one));
}

/// Law: in strip mode a whole title sequence (OSC 0, 1 or 2, ended by BEL)
/// is removed: nothing of it is written.
pub proof fn lemma_strip_removes_title(v: TitleFilterView, c: u8, t: Seq<u8>)
    requires
        v.state == 0,
        v.prefix is None,
        c == 0x30 || c == 0x31 || c == 0x32,
        forall|i: int| 0 <= i < t.len() ==> t[i] != 0x1b && t[i] != 0x07,
    ensures
        title_run(v, seq![0x1bu8, 0x5du8, c, 0x3bu8] + t + seq![0x07u8]).1 == Seq::<u8>::empty(),
        title_run(v, seq![0x1bu8, 0x5du8, c, 0x3bu8] + t + seq![0x07u8]).0.state == 0,
{
    lemma_title_sequence(v, c, t);
}

/// Law: in rewrite mode, with no directory known, a whole title sequence
/// comes out with the tag put before the title and everything else kept.
pub proof fn lemma_rewrite_tags_title(v: TitleFilterView, c: u8, t: Seq<u8>)
    requires
        v.state == 0,
        v.prefix is Some,
        v.cwd is None,
        c == 0x30 || c == 0x31 || c == 0x32,
        forall|i: int| 0 <= i < t.len() ==> t[i] != 0x1b && t[i] != 0x07,
    ensures
        title_run(v, seq![0x1bu8, 0x5du8, c, 0x3bu8] + t + seq![0x07u8]).1 == seq![0x1bu8, 0x5du8, c, 0x3bu8]
            + v.prefix->0 + t + seq![0x07u8],
        title_run(v, seq![0x1bu8, 0x5du8, c, 0x3bu8] + t + seq![0x07u8]).0.state == 0,
{
    lemma_title_sequence(v, c, t);
}

impl TitleFilter {
    /// A filter that removes title sequences.
    pub fn strip() -> (r: Self)
        ensures
            r@ == (TitleFilterView {
                state: 0,
                code: 0,
                title: seq![],
                prefix: None,
                cwd: None,
                home: None,
            }),
    {
        TitleFilter {
            state: 0,
            code: 0,
            title: Vec::new(),
            mode: TitleFilterMode::Strip,
            cwd: None,
            home: None,
        }
    }

    /// A filter that tags each title with `#<session_id> `.
    pub fn rewrite(session_id: &str) -> (r: Self)
        ensures
            r@ == (TitleFilterView {
                state: 0,
                code: 0,
                title: seq![],
                prefix: Some(seq![0x23u8] + encode_utf8(session_id@) + seq![0x20u8]),
                cwd: None,
                home: None,
            }),
    {
        let mut prefix: Vec<u8> = Vec::new();
        prefix.push(0x23);
        let id = str_bytes(session_id);
        let mut i: usize = 0;
        while i < id.len()
            invariant
                i <= id@.len(),
                prefix@ == seq![0x23u8] + id@.subrange(0, i as int),
            decreases id@.len() - i,
        {
            prefix.push(id[i]);
            i = i + 1;
            assert(id@.subrange(0, i as int) == id@.subrange(0, i - 1) + seq![id@[i - 1]]);
        }
        prefix.push(0x20);
        proof {
            assert(id@.subrange(0, id@.len() as int) == id@);
            assert(prefix@ =~= seq![0x23u8] + encode_utf8(session_id@) + seq![0x20u8]);
        }
        TitleFilter {
            state: 0,
            code: 0,
            title: Vec::new(),
            mode: TitleFilterMode::Rewrite { prefix },
            cwd: None,
            home: None,
        }
    }

    /// Sets the directory shown for idle shell titles.
    pub fn set_cwd(&mut self, cwd: Option<String>)
        ensures
            final(self)@ == (TitleFilterView { cwd: opt_view(cwd), ..old(self)@ }),
    {
        self.cwd = cwd;
    }

    /// Sets the home directory abbreviated as `~` in shown directories (the
    /// value of `HOME`; none by default).
    pub fn set_home(&mut self, home: Option<String>)
        ensures
            final(self)@ == (TitleFilterView { home: opt_view(home), ..old(self)@ }),
    {
        self.home = home;
    }

    /// Filters one chunk of output.
    pub fn filter(&mut self, input: &[u8]) -> (out: Vec<u8>)
        ensures
            (final(self)@, out@) == title_run(old(self)@, input@),
    {
        let ghost v0 = self@;
        let mut out: Vec<u8> = Vec::new();
        let mut i: usize = 0;
        proof {
            assert(input@.subrange(0, 0) == Seq::<u8>::empty());
        }
        while i < input.len()
            invariant
                i <= input@.len(),
                (self@, out@) == title_run(v0, input@.subrange(0, i as int)),
            decreases input@.len() - i,
        {
            let b = input[i];
            self.step(b, &mut out);
            i = i + 1;
            proof {
                let p = input@.subrange(0, i as int);
                assert(p.drop_last() == input@.subrange(0, i - 1));
                assert(p.last() == b);
            }
        }
        proof {
            assert(input@.subrange(0, input@.len() as int) == input@);
        }
        out
    }

    fn step(&mut self, b: u8, out: &mut Vec<u8>)
        ensures
            final(self)@ == title_step(old(self)@, b).0,
            final(out)@ == old(out)@ + title_step(old(self)@, b).1,
    {
        let ghost v = self@;
        if self.state == 0 {
            if b == 0x1b {
                self.state = 1;
            } else {
                out.push(b);
            }
        } else if self.state == 1 {
            if b == 0x5d {
                self.state = 2;
            } else {
                out.push(0x1b);
                out.push(b);
                self.state = 0;
            }
        } else if self.state == 2 {
            if b == 0x30 || b == 0x31 || b == 0x32 {
                self.code = b;
                self.state = 3;
            } else {
                out.push(0x1b);
                out.push(0x5d);
                out.push(b);
                self.state = 0;
            }
        } else if self.state == 3 {
            if b == 0x3b {
                self.title.clear();
                self.state = 4;
                assert(self.title@ =~= Seq::<u8>::empty());
            } else {
                out.push(0x1b);
                out.push(0x5d);
                out.push(self.code);
                out.push(b);
                self.state = 0;
            }
        } else if self.state == 4 {
            if b == 0x07 {
                self.emit_title(out, true);
                self.state = 0;
            } else if b == 0x1b {
                self.state = 5;
            } else {
                self.title.push(b);
            }
        } else if self.state == 5 {
            if b == 0x5c {
                self.emit_title(out, false);
                self.state = 0;
            } else {
                self.title.push(0x1b);
                self.title.push(b);
                self.state = 4;
                assert(self.title@ =~= v.title + seq![0x1bu8, b]);
            }
        } else {
            self.state = 0;
        }
        proof {
            assert(final(out)@ == old(out)@ + title_step(v, b).1);
        }
    }

    /// Writes the finished title (ended by BEL when `bel`, else by `ESC \`).
    fn emit_title(&self, out: &mut Vec<u8>, bel: bool)
        ensures
            final(out)@ == old(out)@ + title_emission(
                self@,
                if bel {
                    seq![0x07u8]
                } else {
                    seq![0x1bu8, 0x5cu8]
                },
            ),
    {
        let ghost term = if bel {
            seq![0x07u8]
        } else {
            seq![0x1bu8, 0x5cu8]
        };
        match &self.mode {
            TitleFilterMode::Strip => {
                assert(old(out)@ + Seq::<u8>::empty() == old(out)@);
            },
            TitleFilterMode::Rewrite { prefix } => {
                let ghost start = out@;
                out.push(0x1b);
                out.push(0x5d);
                out.push(self.code);
                out.push(0x3b);
                extend(out, prefix.as_slice());
                let ghost shown;
                match self.normalized_title() {
                    Some(t) => {
                        let tb = str_bytes(t.as_str());
                        proof {
                            shown = tb@;
                        }
                        extend(out, tb.as_slice());
                    },
                    None => {
                        proof {
                            shown = self.title@;
                        }
                        extend(out, self.title.as_slice());
                    },
                }
                if bel {
                    out.push(0x07);
                } else {
                    out.push(0x1b);
                    out.push(0x5c);
                }
                proof {
                    assert(out@ == start + (seq![0x1bu8, 0x5du8, self.code, 0x3bu8] + prefix@
                        + shown + term));
                }
            },
        }
    }

    /// The idle-title replacement for the title collected so far.
    fn normalized_title(&self) -> (r: Option<String>)
        ensures
            r matches Some(s) ==> normalized_title(self@) == Some(s@),
            r is None ==> normalized_title(self@) is None,
    {
        match &self.cwd {
            None => None,
            Some(cwd) => match decode(self.title.as_slice()) {
                None => None,
                Some(chars) => {
                    let (a, e) = trim_bounds(chars.as_slice());
                    let t = slice_chars(chars.as_slice(), a, e);
                    if idle_title_chars(t.as_slice()) {
                        let home: Option<&str> = match &self.home {
                            Some(h) => Some(h.as_str()),
                            None => None,
                        };
                        Some(shorten_home(cwd.as_str(), home))
                    } else {
                        None
                    }
                },
            },
        }
    }
}

/// Appends the bytes of `src` to `dst`.
pub fn extend(dst: &mut Vec<u8>, src: &[u8])
    ensures
        final(dst)@ == old(dst)@ + src@,
{
    let mut i: usize = 0;
    while i < src.len()
        invariant
            i <= src@.len(),
            dst@ == old(dst)@ + src@.subrange(0, i as int),
        decreases src@.len() - i,
    {
        dst.push(src[i]);
        i = i + 1;
        assert(src@.subrange(0, i as int) == src@.subrange(0, i - 1) + seq![src@[i - 1]]);
    }
    assert(src@.subrange(0, src@.len() as int) == src@);
}

// ---------------------------------------------------------------------------
// Alternate screen
// ---------------------------------------------------------------------------

/// The CSI sequences that enter (`h`) or leave (`l`) the alternate screen:
/// `ESC [ ? 47`, `ESC [ ? 1047` and `ESC [ ? 1049`.
pub open spec fn alt_screen_sequence(s: Seq<u8>) -> bool {
    ||| s == seq![0x1bu8, 0x5bu8, 0x3fu8, 0x34u8, 0x37u8, 0x68u8]
    ||| s == seq![0x1bu8, 0x5bu8, 0x3fu8, 0x34u8, 0x37u8, 0x6cu8]
    ||| s == seq![0x1bu8, 0x5bu8, 0x3fu8, 0x31u8, 0x30u8, 0x34u8, 0x37u8, 0x68u8]
    ||| s == seq![0x1bu8, 0x5bu8, 0x3fu8, 0x31u8, 0x30u8, 0x34u8, 0x37u8, 0x6cu8]
    ||| s == seq![0x1bu8, 0x5bu8, 0x3fu8, 0x31u8, 0x30u8, 0x34u8, 0x39u8, 0x68u8]
    ||| s == seq![0x1bu8, 0x5bu8, 0x3fu8, 0x31u8, 0x30u8, 0x34u8, 0x39u8, 0x6cu8]
}

/// Whether `seq` enters or leaves the alternate screen.
pub fn is_alt_screen_sequence(seq: &[u8]) -> (r: bool)
    ensures
        r == alt_screen_sequence(seq@),
{
    let ghost s = seq@;
    let n = seq.len();
    if n == 6 {
        let r = seq[0] == 0x1b && seq[1] == 0x5b && seq[2] == 0x3f && seq[3] == 0x34 && seq[4]
            == 0x37 && (seq[5] == 0x68 || seq[5] == 0x6c);
        proof {
            if r {
                if seq[5] == 0x68 {
                    assert(s =~= seq![0x1bu8, 0x5bu8, 0x3fu8, 0x34u8, 0x37u8, 0x68u8]);
                } else {
                    assert(s =~= seq![0x1bu8, 0x5bu8, 0x3fu8, 0x34u8, 0x37u8, 0x6cu8]);
                }
            }
            if alt_screen_sequence(s) {
                assert(s[0] == 0x1b && s[1] == 0x5b && s[2] == 0x3f && s[3] == 0x34 && s[4]
                    == 0x37 && (s[5] == 0x68 || s[5] == 0x6c));
            }
        }
        r
    } else if n == 8 {
        let r = seq[0] == 0x1b && seq[1] == 0x5b && seq[2] == 0x3f && seq[3] == 0x31 && seq[4]
            == 0x30 && seq[5] == 0x34 && (seq[6] == 0x37 || seq[6] == 0x39) && (seq[7] == 0x68
            || seq[7] == 0x6c);
        proof {
            if r {
                if seq[6] == 0x37 && seq[7] == 0x68 {
                    assert(s =~= seq![0x1bu8, 0x5bu8, 0x3fu8, 0x31u8, 0x30u8, 0x34u8, 0x37u8, 0x68u8]);
                } else if seq[6] == 0x37 {
                    assert(s =~= seq![0x1bu8, 0x5bu8, 0x3fu8, 0x31u8, 0x30u8, 0x34u8, 0x37u8, 0x6cu8]);
                } else if seq[7] == 0x68 {
                    assert(s =~= seq![0x1bu8, 0x5bu8, 0x3fu8, 0x31u8, 0x30u8, 0x34u8, 0x39u8, 0x68u8]);
                } else {
                    assert(s =~= seq![0x1bu8, 0x5bu8, 0x3fu8, 0x31u8, 0x30u8, 0x34u8, 0x39u8, 0x6cu8]);
                }
            }
            if alt_screen_sequence(s) {
                assert(s[0] == 0x1b && s[1] == 0x5b && s[2] == 0x3f && s[3] == 0x31 && s[4]
                    == 0x30 && s[5] == 0x34 && (s[6] == 0x37 || s[6] == 0x39) && (s[7] == 0x68
                    || s[7] == 0x6c));
            }
        }
        r
    } else {
        proof {
            if alt_screen_sequence(s) {
                assert(s.len() == 6 || s.len() == 8);
            }
        }
        false
    }
}

pub open spec fn is_csi_final(b: u8) -> bool {
    0x40 <= b && b <= 0x7e
}

/// Drops output drawn on the alternate screen, keeping everything else.
pub struct AltScreenLogFilter {
    alt_screen: bool,
    state: u8,
    seq: Vec<u8>,
}

pub struct AltScreenView {
    pub alt_screen: bool,
    pub state: u8,
    pub seq: Seq<u8>,
}

impl View for AltScreenLogFilter {
    type V = AltScreenView;

    closed spec fn view(&self) -> AltScreenView {
        AltScreenView { alt_screen: self.alt_screen, state: self.state, seq: self.seq@ }
    }
}

/// Ends a pending sequence: it is written unless the alternate screen is on.
pub open spec fn log_flush(v: AltScreenView) -> (AltScreenView, Seq<u8>) {
    (
        AltScreenView { state: 0, seq: seq![], ..v },
        if !v.alt_screen {
            v.seq
        } else {
            seq![]
        },
    )
}

/// One byte through the log filter.
pub open spec fn log_step(v: AltScreenView, b: u8) -> (AltScreenView, Seq<u8>) {
    if v.state == 0 {
        if b == 0x1b {
            (AltScreenView { seq: seq![b], state: 1, ..v }, seq![])
        } else if !v.alt_screen {
            (v, seq![b])
        } else {
            (v, seq![])
        }
    } else if v.state == 1 {
        let s = v.seq.push(b);
        if b == 0x5b {
            (AltScreenView { seq: s, state: 2, ..v }, seq![])
        } else {
            log_flush(AltScreenView { seq: s, ..v })
        }
    } else if v.state == 2 {
        let s = v.seq.push(b);
        if is_csi_final(b) {
            if alt_screen_sequence(s) {
                (AltScreenView { alt_screen: b == 0x68, seq: seq![], state: 0 }, seq![])
            } else {
                log_flush(AltScreenView { seq: s, ..v })
            }
        } else {
            (AltScreenView { seq: s, ..v }, seq![])
        }
    } else {
        (AltScreenView { state: 0, ..v }, seq![])
    }
}

pub open spec fn log_run(v: AltScreenView, input: Seq<u8>) -> (AltScreenView, Seq<u8>)
    decreases input.len(),
{
    if input.len() == 0 {
        (v, seq![])
    } else {
        let (v1, o1) = log_run(v, input.drop_last());
        let (v2, o2) = log_step(v1, input.last());
        (v2, o1 + o2)
    }
}

/// Law: the log filter gives the same result for input fed in two pieces as
/// for the whole.
pub proof fn lemma_log_chunks(v: AltScreenView, a: Seq<u8>, b: Seq<u8>)
    ensures
        log_run(v, a + b) == (log_run(log_run(v, a).0, b).0, log_run(v, a).1 + log_run(
            log_run(v, a).0,
            b,
        ).1),
    decreases b.len(),
{
    if b.len() == 0 {
        assert(a + b == a);
        assert(log_run(v, a).1 + Seq::<u8>::empty() == log_run(v, a).1);
    } else {
        assert((a + b).drop_last() == a + b.drop_last());
        assert((a + b).last() == b.last());
        lemma_log_chunks(v, a, b.drop_last());
        let m = log_run(v, a);
        let r = log_run(m.0, b.drop_last());
        let s = log_step(r.0, b.last());
        assert(m.1 + r.1 + s.1 == m.1 + (r.1 + s.1));
    }
}

/// Whether some stretch of `x` is an enter or leave sequence of the
/// alternate screen.
pub open spec fn holds_switch(x: Seq<u8>) -> bool {
    exists|i: int, j: int| 0 <= i <= j <= x.len() && alt_screen_sequence(#[trigger] x.subrange(i, j))
}

proof fn lemma_log_passthrough_run(v: AltScreenView, x: Seq<u8>)
    requires
        v.state == 0,
        !v.alt_screen,
        !holds_switch(x),
    ensures
        !log_run(v, x).0.alt_screen,
        log_run(v, x).0.state <= 2,
        log_run(v, x).0.state == 0 ==> log_run(v, x).1 == x,
        log_run(v, x).0.state != 0 ==> log_run(v, x).1 + log_run(v, x).0.seq == x,
    decreases x.len(),
{
    if x.len() > 0 {
        let y = x.drop_last();
        let b = x.last();
        assert(!holds_switch(y)) by {
            if holds_switch(y) {
                let (i, j) = choose|i: int, j: int|
                    0 <= i <= j <= y.len() && alt_screen_sequence(#[trigger] y.subrange(i, j));
                assert(x.subrange(i, j) == y.subrange(i, j));
            }
        }
        lemma_log_passthrough_run(v, y);
        let (w, o) = log_run(v, y);
        assert(x == y.push(b));
        if w.state == 0 {
            if b == 0x1b {
                assert(o + seq![b] == x);
            } else {
                assert(o + seq![b] == x);
            }
        } else if w.state == 1 {
            assert(o + w.seq.push(b) == x);
        } else {
            let sq = w.seq.push(b);
            assert(o + sq == x);
            if is_csi_final(b) && alt_screen_sequence(sq) {
                assert(x.subrange(o.len() as int, x.len() as int) == sq);
                assert(false);
            }
        }
    }
}

/// Law: off the alternate screen, the log filter passes every byte through
/// (colours, cursor moves, erases and all other sequences) as long as the
/// input holds no alternate-screen switch: starting between sequences and
/// ending between sequences, the log gets the input unchanged.
pub proof fn lemma_log_passes_plain_output(v: AltScreenView, x: Seq<u8>)
    requires
        v.state == 0,
        !v.alt_screen,
        !holds_switch(x),
        log_run(v, x).0.state == 0,
    ensures
        log_run(v, x).1 == x,
        !log_run(v, x).0.alt_screen,
{
    lemma_log_passthrough_run(v, x);
}

impl AltScreenLogFilter {
    /// Whether the alternate screen is on.
    pub fn alt_screen(&self) -> (r: bool)
        ensures
            r == self@.alt_screen,
    {
        self.alt_screen
    }

    pub fn new() -> (r: Self)
        ensures
            r@ == (AltScreenView { alt_screen: false, state: 0, seq: seq![] }),
    {
        AltScreenLogFilter { alt_screen: false, state: 0, seq: Vec::new() }
    }

    /// Filters one chunk of output for the log.
    pub fn filter(&mut self, input: &[u8]) -> (out: Vec<u8>)
        ensures
            (final(self)@, out@) == log_run(old(self)@, input@),
    {
        let ghost v0 = self@;
        let mut out: Vec<u8> = Vec::new();
        let mut i: usize = 0;
        proof {
            assert(input@.subrange(0, 0) == Seq::<u8>::empty());
        }
        while i < input.len()
            invariant
                i <= input@.len(),
                (self@, out@) == log_run(v0, input@.subrange(0, i as int)),
            decreases input@.len() - i,
        {
            let b = input[i];
            let ghost before = self@;
            if self.state == 0 {
                if b == 0x1b {
                    self.seq.clear();
                    self.seq.push(b);
                    self.state = 1;
                } else if !self.alt_screen {
                    out.push(b);
                }
            } else if self.state == 1 {
                self.seq.push(b);
                if b == 0x5b {
                    self.state = 2;
                } else {
                    self.flush_sequence(&mut out);
                }
            } else if self.state == 2 {
                self.seq.push(b);
                if 0x40 <= b && b <= 0x7e {
                    if self.is_alt_screen_sequence() {
                        self.alt_screen = b == 0x68;
                        self.seq.clear();
                    } else {
                        self.flush_sequence(&mut out);
                    }
                    self.state = 0;
                }
            } else {
                self.state = 0;
            }
            i = i + 1;
            proof {
                let p = input@.subrange(0, i as int);
                assert(p.drop_last() == input@.subrange(0, i - 1));
                assert(p.last() == b);
                assert(self@ == log_step(before, b).0);
            }
        }
        proof {
            assert(input@.subrange(0, input@.len() as int) == input@);
        }
        out
    }

    fn flush_sequence(&mut self, out: &mut Vec<u8>)
        ensures
            final(self)@ == log_flush(old(self)@).0,
            final(out)@ == old(out)@ + log_flush(old(self)@).1,
    {
        if !self.alt_screen {
            extend(out, self.seq.as_slice());
        } else {
            assert(old(out)@ + Seq::<u8>::empty() == old(out)@);
        }
        self.seq.clear();
        self.state = 0;
    }

    fn is_alt_screen_sequence(&self) -> (r: bool)
        ensures
            r == alt_screen_sequence(self@.seq),
    {
        is_alt_screen_sequence(self.seq.as_slice())
    }
}

impl Default for AltScreenLogFilter {
    fn default() -> (r: Self)
        ensures
            r@ == (AltScreenView { alt_screen: false, state: 0, seq: seq![] }),
    {
        Self::new()
    }
}

/// Follows whether the alternate screen is active, without filtering.
pub struct AltScreenTracker {
    alt_screen: bool,
    state: u8,
    seq: Vec<u8>,
}

impl View for AltScreenTracker {
    type V = AltScreenView;

    closed spec fn view(&self) -> AltScreenView {
        AltScreenView { alt_screen: self.alt_screen, state: self.state, seq: self.seq@ }
    }
}

/// One byte seen by the tracker.
pub open spec fn track_step(v: AltScreenView, b: u8) -> AltScreenView {
    if v.state == 0 {
        if b == 0x1b {
            AltScreenView { seq: seq![b], state: 1, ..v }
        } else {
            v
        }
    } else if v.state == 1 {
        AltScreenView { seq: v.seq.push(b), state: if b == 0x5b { 2 } else { 0 }, ..v }
    } else if v.state == 2 {
        let s = v.seq.push(b);
        if is_csi_final(b) {
            AltScreenView {
                alt_screen: if alt_screen_sequence(s) {
                    b == 0x68
                } else {
                    v.alt_screen
                },
                seq: s,
                state: 0,
            }
        } else {
            AltScreenView { seq: s, ..v }
        }
    } else {
        AltScreenView { state: 0, ..v }
    }
}

pub open spec fn track_run(v: AltScreenView, input: Seq<u8>) -> AltScreenView
    decreases input.len(),
{
    if input.len() == 0 {
        v
    } else {
        track_step(track_run(v, input.drop_last()), input.last())
    }
}

/// Law: the tracker sees the same result for input fed in two pieces.
pub proof fn lemma_track_chunks(v: AltScreenView, a: Seq<u8>, b: Seq<u8>)
    ensures
        track_run(v, a + b) == track_run(track_run(v, a), b),
    decreases b.len(),
{
    if b.len() == 0 {
        assert(a + b == a);
    } else {
        assert((a + b).drop_last() == a + b.drop_last());
        assert((a + b).last() == b.last());
        lemma_track_chunks(v, a, b.drop_last());
    }
}

/// Bytes with no escape leave a tracker between sequences as it is.
proof fn lemma_track_plain(v: AltScreenView, rest: Seq<u8>)
    requires
        v.state == 0,
        forall|j: int| 0 <= j < rest.len() ==> rest[j] != 0x1b,
    ensures
        track_run(v, rest) == v,
    decreases rest.len(),
{
    if rest.len() > 0 {
        lemma_track_plain(v, rest.drop_last());
        assert(rest.last() == rest[rest.len() - 1]);
    }
}

/// Inside a control sequence whose final byte has not come yet, the tracker
/// holds the bytes so far and keeps its flag.
proof fn lemma_track_csi_prefix(v: AltScreenView, s: Seq<u8>, k: int)
    requires
        v.state == 0,
        2 <= k <= s.len(),
        s[0] == 0x1b,
        s[1] == 0x5b,
        forall|j: int| 2 <= j < k ==> !is_csi_final(#[trigger] s[j]),
    ensures
        track_run(v, s.subrange(0, k)) == (AltScreenView {
            alt_screen: v.alt_screen,
            state: 2,
            seq: s.subrange(0, k),
        }),
    decreases k,
{
    let p = s.subrange(0, k);
    assert(p.drop_last() == s.subrange(0, k - 1));
    assert(p.last() == s[k - 1]);
    if k == 2 {
        let p1 = s.subrange(0, 1);
        assert(p1.drop_last().len() == 0);
        assert(p1.last() == s[0]);
        assert(track_run(v, p1.drop_last()) == v);
        assert(track_run(v, p1) == AltScreenView { seq: seq![s[0]], state: 1, ..v });
        assert(seq![s[0]].push(s[1]) == p);
    } else {
        lemma_track_csi_prefix(v, s, k - 1);
        assert(s.subrange(0, k - 1).push(s[k - 1]) == p);
    }
}

/// Law: an enter or leave sequence seen between sequences sets the flag to
/// what it says (`h` enters, `l` leaves), whatever it was, and the flag stays
/// so while no further escape follows.
pub proof fn lemma_tracker_follows(v: AltScreenView, s: Seq<u8>, rest: Seq<u8>)
    requires
        v.state == 0,
        alt_screen_sequence(s),
        forall|j: int| 0 <= j < rest.len() ==> rest[j] != 0x1b,
    ensures
        track_run(v, s + rest).alt_screen == (s.last() == 0x68),
        track_run(v, s + rest).state == 0,
{
    let n = s.len() as int;
    assert(n == 6 || n == 8);
    assert(s[0] == 0x1b && s[1] == 0x5b);
    assert forall|j: int| 2 <= j < n - 1 implies !is_csi_final(#[trigger] s[j]) by {}
    assert(is_csi_final(s[n - 1]));
    lemma_track_csi_prefix(v, s, n - 1);
    assert(s.drop_last() == s.subrange(0, n - 1));
    assert(s.subrange(0, n - 1).push(s.last()) == s);
    let w = track_run(v, s);
    assert(w.alt_screen == (s.last() == 0x68) && w.state == 0);
    lemma_track_chunks(v, s, rest);
    lemma_track_plain(w, rest);
}

/// The log filter and the tracker are in step: same alternate-screen flag,
/// same parser state, same pending sequence while one is pending.
pub open spec fn in_step(l: AltScreenView, t: AltScreenView) -> bool {
    &&& l.alt_screen == t.alt_screen
    &&& l.state == t.state
    &&& (l.state == 1 || l.state == 2) ==> l.seq == t.seq
}

/// Law: fed the same bytes, the log filter and the tracker agree on whether
/// the alternate screen is active.
pub proof fn lemma_tracker_agrees(l: AltScreenView, t: AltScreenView, input: Seq<u8>)
    requires
        in_step(l, t),
    ensures
        in_step(log_run(l, input).0, track_run(t, input)),
        log_run(l, input).0.alt_screen == track_run(t, input).alt_screen,
    decreases input.len(),
{
    if input.len() > 0 {
        lemma_tracker_agrees(l, t, input.drop_last());
    }
}

/// Byte `k` of `x` completes an enter or leave sequence: the tracker, fed
/// `x[..k]` from `v`, is inside a control sequence, `x[k]` is its final byte,
/// and the whole sequence is one of the switch sequences.
pub open spec fn completes_switch(v: AltScreenView, x: Seq<u8>, k: int) -> bool {
    let w = track_run(v, x.subrange(0, k));
    &&& w.state == 2
    &&& is_csi_final(x[k])
    &&& alt_screen_sequence(w.seq.push(x[k]))
}

proof fn lemma_completes_switch_prefix(v: AltScreenView, x: Seq<u8>, k: int)
    requires
        0 <= k < x.len() - 1,
    ensures
        completes_switch(v, x.drop_last(), k) == completes_switch(v, x, k),
{
    assert(x.drop_last().subrange(0, k) == x.subrange(0, k));
    assert(x.drop_last()[k] == x[k]);
}

/// Law: the alternate-screen flag after `x` is what the last switch
/// sequence completed in `x` says (`h` on, `l` off), or the flag it started
/// with when `x` completes none; a log filter in step with the tracker has
/// the same flag.
pub proof fn lemma_flag_follows_last_switch(l: AltScreenView, v: AltScreenView, x: Seq<u8>)
    requires
        in_step(l, v),
    ensures
        (forall|k: int| 0 <= k < x.len() ==> !completes_switch(v, x, k)) ==> track_run(v, x).alt_screen
            == v.alt_screen,
        forall|k: int|
            0 <= k < x.len() && completes_switch(v, x, k) && (forall|j: int|
                k < j < x.len() ==> !completes_switch(v, x, j)) ==> track_run(v, x).alt_screen == (
            x[k] == 0x68),
        log_run(l, x).0.alt_screen == track_run(v, x).alt_screen,
    decreases x.len(),
{
    lemma_tracker_agrees(l, v, x);
    if x.len() > 0 {
        let y = x.drop_last();
        let n = x.len() - 1;
        lemma_flag_follows_last_switch(l, v, y);
        assert(x.subrange(0, n) == y);
        assert(x[n] == x.last());
        assert forall|k: int| 0 <= k < n implies completes_switch(v, y, k) == completes_switch(v, x, k) by {
            lemma_completes_switch_prefix(v, x, k);
        }
        let w = track_run(v, y);
        if !completes_switch(v, x, n) {
            assert(track_run(v, x).alt_screen == w.alt_screen);
        } else {
            assert(track_run(v, x).alt_screen == (x[n] == 0x68));
        }
        assert forall|k: int|
            0 <= k < x.len() && completes_switch(v, x, k) && (forall|j: int|
                k < j < x.len() ==> !completes_switch(v, x, j)) implies track_run(v, x).alt_screen == (
            x[k] == 0x68) by {
            if k < n {
                assert(!completes_switch(v, x, n));
                assert forall|j: int| k < j < y.len() implies !completes_switch(v, y, j) by {
                    assert(!completes_switch(v, x, j));
                }
            }
        }
        if forall|k: int| 0 <= k < x.len() ==> !completes_switch(v, x, k) {
            assert(!completes_switch(v, x, n));
            assert forall|k: int| 0 <= k < y.len() implies !completes_switch(v, y, k) by {
                assert(!completes_switch(v, x, k));
            }
        }
    }
}

impl AltScreenTracker {
    /// Whether the alternate screen is on.
    pub fn alt_screen(&self) -> (r: bool)
        ensures
            r == self@.alt_screen,
    {
        self.alt_screen
    }

    pub fn new() -> (r: Self)
        ensures
            r@ == (AltScreenView { alt_screen: false, state: 0, seq: seq![] }),
    {
        AltScreenTracker { alt_screen: false, state: 0, seq: Vec::new() }
    }

    /// Follows one chunk of output.
    pub fn observe(&mut self, input: &[u8])
        ensures
            final(self)@ == track_run(old(self)@, input@),
    {
        let ghost v0 = self@;
        let mut i: usize = 0;
        proof {
            assert(input@.subrange(0, 0) == Seq::<u8>::empty());
        }
        while i < input.len()
            invariant
                i <= input@.len(),
                self@ == track_run(v0, input@.subrange(0, i as int)),
            decreases input@.len() - i,
        {
            let b = input[i];
            let ghost before = self@;
            if self.state == 0 {
                if b == 0x1b {
                    self.seq.clear();
                    self.seq.push(b);
                    self.state = 1;
                }
            } else if self.state == 1 {
                self.seq.push(b);
                self.state = if b == 0x5b {
                    2
                } else {
                    0
                };
            } else if self.state == 2 {
                self.seq.push(b);
                if 0x40 <= b && b <= 0x7e {
                    if is_alt_screen_sequence(self.seq.as_slice()) {
                        self.alt_screen = b == 0x68;
                    }
                    self.state = 0;
                }
            } else {
                self.state = 0;
            }
            i = i + 1;
            proof {
                let p = input@.subrange(0, i as int);
                assert(p.drop_last() == input@.subrange(0, i - 1));
                assert(p.last() == b);
                assert(self@ == track_step(before, b));
            }
        }
        proof {
            assert(input@.subrange(0, input@.len() as int) == input@);
        }
    }
}

impl Default for AltScreenTracker {
    fn default() -> (r: Self)
        ensures
            r@ == (AltScreenView { alt_screen: false, state: 0, seq: seq![] }),
    {
        Self::new()
    }
}

// ---------------------------------------------------------------------------
// The filters a session's output goes through
// ---------------------------------------------------------------------------

/// The filters the master process runs over the shell's output: titles are
/// rewritten for attached clients; titles and alternate-screen output are
/// kept out of the log; the tracker follows the alternate screen.
pub struct PtyOutputFilters {
    pub display: TitleFilter,
    pub log_title: TitleFilter,
    pub log: AltScreenLogFilter,
    pub tracker: AltScreenTracker,
}

pub struct PtyOutputView {
    pub display: TitleFilterView,
    pub log_title: TitleFilterView,
    pub log: AltScreenView,
    pub tracker: AltScreenView,
}

impl View for PtyOutputFilters {
    type V = PtyOutputView;

    open spec fn view(&self) -> PtyOutputView {
        PtyOutputView {
            display: self.display@,
            log_title: self.log_title@,
            log: self.log@,
            tracker: self.tracker@,
        }
    }
}

/// One chunk of shell output: the new state, the bytes for attached clients
/// and the bytes for the log. While the alternate screen stays on, clients
/// get the chunk as it is and the log nothing; when the chunk leaves nothing
/// for clients, the log filters do not see it either.
pub open spec fn pty_chunk(v: PtyOutputView, raw: Seq<u8>) -> (PtyOutputView, Seq<u8>, Seq<u8>) {
    let tracker = track_run(v.tracker, raw);
    let stays_alt = v.tracker.alt_screen && tracker.alt_screen;
    let (display, shown) = if stays_alt {
        (v.display, raw)
    } else {
        title_run(v.display, raw)
    };
    if shown.len() == 0 {
        (PtyOutputView { display, tracker, ..v }, seq![], seq![])
    } else if stays_alt {
        (PtyOutputView { display, tracker, ..v }, shown, seq![])
    } else {
        let (log_title, title_free) = title_run(v.log_title, raw);
        let (log, loggable) = log_run(v.log, title_free);
        (PtyOutputView { display, log_title, log, tracker }, shown, loggable)
    }
}

impl PtyOutputFilters {
    /// The filters of a new session with the given id.
    pub fn new(session_id: &str) -> (r: Self)
        ensures
            r@.display == (TitleFilterView {
                state: 0,
                code: 0,
                title: seq![],
                prefix: Some(seq![0x23u8] + encode_utf8(session_id@) + seq![0x20u8]),
                cwd: None,
                home: None,
            }),
            r@.log_title == (TitleFilterView {
                state: 0,
                code: 0,
                title: seq![],
                prefix: None,
                cwd: None,
                home: None,
            }),
            r@.log == (AltScreenView { alt_screen: false, state: 0, seq: seq![] }),
            r@.tracker == (AltScreenView { alt_screen: false, state: 0, seq: seq![] }),
    {
        PtyOutputFilters {
            display: TitleFilter::rewrite(session_id),
            log_title: TitleFilter::strip(),
            log: AltScreenLogFilter::new(),
            tracker: AltScreenTracker::new(),
        }
    }

    /// Sets the directory shown in place of idle shell titles.
    pub fn set_cwd(&mut self, cwd: Option<String>)
        ensures
            final(self)@ == (PtyOutputView {
                display: TitleFilterView { cwd: opt_view(cwd), ..old(self)@.display },
                ..old(self)@
            }),
    {
        self.display.set_cwd(cwd);
    }

    /// Runs one chunk through the filters: what to send to attached clients
    /// and what to append to the log.
    pub fn process(&mut self, raw: &[u8]) -> (r: (Vec<u8>, Vec<u8>))
        ensures
            (final(self)@, r.0@, r.1@) == pty_chunk(old(self)@, raw@),
    {
        let was_alt = self.tracker.alt_screen;
        self.tracker.observe(raw);
        let stays_alt = was_alt && self.tracker.alt_screen;
        let mut shown: Vec<u8> = Vec::new();
        if stays_alt {
            extend(&mut shown, raw);
        } else {
            shown = self.display.filter(raw);
        }
        if shown.len() == 0 {
            return (shown, Vec::new());
        }
        if stays_alt {
            return (shown, Vec::new());
        }
        let title_free = self.log_title.filter(raw);
        let loggable = self.log.filter(title_free.as_slice());
        (shown, loggable)
    }
}

/// Law: while a full-screen program keeps the alternate screen, its output
/// reaches attached clients untouched and none of it is logged.
pub proof fn lemma_alt_screen_not_logged(v: PtyOutputView, raw: Seq<u8>)
    requires
        v.tracker.alt_screen,
        track_run(v.tracker, raw).alt_screen,
    ensures
        pty_chunk(v, raw).1 == raw,
        pty_chunk(v, raw).2 == Seq::<u8>::empty(),
{
}

} // verus!
