//! The lines of a session's output that are shown to users and agents:
//! visible lines of a rendered log, ranges and tails of them, and the
//! compact context report of a session.
use vstd::prelude::*;
use crate::paths::shortened;
use crate::render::{render_fits, render_terminal_text, rendered};
use crate::session::{ago_text, running_for, running_text, time_ago, SessionState};
use crate::text::{
    blank, chars_of, decimal, is_blank, lines, lines_of, push_all, push_decimal, push_str,
    slice_chars, str_views, string_of,
};
use crate::utf8::{read_text, utf8_lossy};

verus! {

// ---------------------------------------------------------------------------
// Long lines
// ---------------------------------------------------------------------------

/// Context lines are cut after this many characters.
pub const CONTEXT_LINE_MAX_CHARS: usize = 1000;

/// A context line, cut to its first thousand characters with a note of how
/// many were left out.
pub open spec fn truncated_line(line: Seq<char>) -> Seq<char> {
    if line.len() <= CONTEXT_LINE_MAX_CHARS {
        line
    } else {
        line.subrange(0, CONTEXT_LINE_MAX_CHARS as int) + "... [truncated "@ + decimal(
            (line.len() - CONTEXT_LINE_MAX_CHARS) as nat,
        ) + " chars]"@
    }
}

pub fn truncate_context_line(line: &str) -> (r: String)
    ensures
        r@ == truncated_line(line@),
{
    let c = chars_of(line);
    if c.len() <= CONTEXT_LINE_MAX_CHARS {
        return string_of(c.as_slice());
    }
    let mut out = slice_chars(c.as_slice(), 0, CONTEXT_LINE_MAX_CHARS);
    push_str(&mut out, "... [truncated ");
    push_decimal(&mut out, (c.len() - CONTEXT_LINE_MAX_CHARS) as u128);
    push_str(&mut out, " chars]");
    string_of(out.as_slice())
}

// ---------------------------------------------------------------------------
// Visible lines
// ---------------------------------------------------------------------------

/// Whether a line shows nothing (`line.trim().is_empty()`).
pub fn line_is_blank(line: &str) -> (r: bool)
    ensures
        r == is_blank(line@),
{
    let c = chars_of(line);
    blank(c.as_slice())
}

/// The lines that show something, in order.
pub open spec fn keep_visible(ls: Seq<Seq<char>>) -> Seq<Seq<char>>
    decreases ls.len(),
{
    if ls.len() == 0 {
        seq![]
    } else if is_blank(ls.last()) {
        keep_visible(ls.drop_last())
    } else {
        keep_visible(ls.drop_last()).push(ls.last())
    }
}

/// The index of the first line from `k` on that shows something, or the
/// number of lines.
pub open spec fn first_visible(ls: Seq<Seq<char>>, k: int) -> int
    decreases ls.len() - k,
{
    if k < 0 || k >= ls.len() {
        ls.len() as int
    } else if !is_blank(ls[k]) {
        k
    } else {
        first_visible(ls, k + 1)
    }
}

/// One past the last line before `k` that shows something, or 0.
pub open spec fn visible_end(ls: Seq<Seq<char>>, k: int) -> int
    decreases k,
{
    if k <= 0 || k > ls.len() {
        0
    } else if !is_blank(ls[k - 1]) {
        k
    } else {
        visible_end(ls, k - 1)
    }
}

/// The lines from the first to the last that shows something.
pub open spec fn visible_span(ls: Seq<Seq<char>>) -> Seq<Seq<char>> {
    let s = first_visible(ls, 0);
    let e = visible_end(ls, ls.len() as int);
    if s < e {
        ls.subrange(s, e)
    } else {
        seq![]
    }
}

proof fn lemma_first_visible(ls: Seq<Seq<char>>, k: int)
    requires
        0 <= k <= ls.len(),
    ensures
        k <= first_visible(ls, k) <= ls.len(),
        forall|j: int| k <= j < first_visible(ls, k) ==> is_blank(#[trigger] ls[j]),
        first_visible(ls, k) < ls.len() ==> !is_blank(ls[first_visible(ls, k)]),
    decreases ls.len() - k,
{
    if k < ls.len() && is_blank(ls[k]) {
        lemma_first_visible(ls, k + 1);
    }
}

proof fn lemma_visible_end(ls: Seq<Seq<char>>, k: int)
    requires
        0 <= k <= ls.len(),
    ensures
        0 <= visible_end(ls, k) <= k,
        forall|j: int| visible_end(ls, k) <= j < k ==> is_blank(#[trigger] ls[j]),
        visible_end(ls, k) > 0 ==> !is_blank(ls[visible_end(ls, k) - 1]),
    decreases k,
{
    if k > 0 && is_blank(ls[k - 1]) {
        lemma_visible_end(ls, k - 1);
    }
}

/// Keeping the visible lines of two runs of lines one after the other.
pub proof fn lemma_keep_visible_append(a: Seq<Seq<char>>, b: Seq<Seq<char>>)
    ensures
        keep_visible(a + b) == keep_visible(a) + keep_visible(b),
    decreases b.len(),
{
    if b.len() == 0 {
        assert(a + b == a);
    } else {
        assert((a + b).drop_last() == a + b.drop_last());
        assert((a + b).last() == b.last());
        lemma_keep_visible_append(a, b.drop_last());
    }
}

/// A run of blank lines keeps nothing.
pub proof fn lemma_keep_visible_blank(a: Seq<Seq<char>>)
    requires
        forall|j: int| 0 <= j < a.len() ==> is_blank(#[trigger] a[j]),
    ensures
        keep_visible(a) == Seq::<Seq<char>>::empty(),
    decreases a.len(),
{
    if a.len() > 0 {
        assert(is_blank(a[a.len() - 1]));
        lemma_keep_visible_blank(a.drop_last());
    }
}

/// Law: cutting the blank lines off both ends keeps every visible line.
pub proof fn lemma_visible_span_keeps_visible(ls: Seq<Seq<char>>)
    ensures
        keep_visible(visible_span(ls)) == keep_visible(ls),
{
    let s = first_visible(ls, 0);
    let e = visible_end(ls, ls.len() as int);
    lemma_first_visible(ls, 0);
    lemma_visible_end(ls, ls.len() as int);
    if s < e {
        let pre = ls.subrange(0, s);
        let mid = ls.subrange(s, e);
        let post = ls.subrange(e, ls.len() as int);
        assert(ls == pre + mid + post);
        lemma_keep_visible_blank(pre);
        lemma_keep_visible_blank(post);
        lemma_keep_visible_append(pre + mid, post);
        lemma_keep_visible_append(pre, mid);
        assert(Seq::<Seq<char>>::empty() + keep_visible(mid) == keep_visible(mid));
        assert(keep_visible(mid) + Seq::<Seq<char>>::empty() == keep_visible(mid));
    } else {
        assert forall|j: int| 0 <= j < ls.len() implies is_blank(#[trigger] ls[j]) by {
            if j >= s && j < e {
            } else if j < s {
            } else {
                if e > 0 {
                    assert(!is_blank(ls[e - 1]));
                    assert(e - 1 < s);
                }
            }
        }
        lemma_keep_visible_blank(ls);
        lemma_keep_visible_blank(Seq::<Seq<char>>::empty());
    }
}

/// Law: trimmed lines have no blank edge left to trim.
pub proof fn lemma_visible_span_idempotent(ls: Seq<Seq<char>>)
    ensures
        visible_span(visible_span(ls)) == visible_span(ls),
{
    let s = first_visible(ls, 0);
    let e = visible_end(ls, ls.len() as int);
    lemma_first_visible(ls, 0);
    lemma_visible_end(ls, ls.len() as int);
    let m = visible_span(ls);
    if s < e {
        assert(m.len() > 0);
        assert(m[0] == ls[s]);
        assert(m[m.len() - 1] == ls[e - 1]);
        assert(first_visible(m, 0) == 0);
        assert(visible_end(m, m.len() as int) == m.len());
        assert(m.subrange(0, m.len() as int) == m);
    } else {
        assert(m.len() == 0);
        assert(first_visible(m, 0) == 0);
        assert(visible_end(m, 0) == 0);
    }
}

proof fn lemma_views_push(v: Seq<String>, x: String)
    ensures
        str_views(v.push(x)) == str_views(v).push(x@),
{
    assert(str_views(v.push(x)) =~= str_views(v).push(x@));
}

/// Copies `lines[start..end]`.
fn copy_range(lines: &[String], start: usize, end: usize) -> (r: Vec<String>)
    requires
        start <= end <= lines@.len(),
    ensures
        str_views(r@) == str_views(lines@).subrange(start as int, end as int),
{
    let mut out: Vec<String> = Vec::new();
    let mut i = start;
    while i < end
        invariant
            start <= i <= end <= lines@.len(),
            out@ == lines@.subrange(start as int, i as int),
        decreases end - i,
    {
        out.push(lines[i].clone());
        i = i + 1;
        assert(out@ =~= lines@.subrange(start as int, i as int));
    }
    assert(str_views(out@) =~= str_views(lines@).subrange(start as int, end as int));
    out
}

/// Drops blank lines before the first and after the last visible line.
pub fn trim_visual_empty_edges(lines: Vec<String>) -> (r: Vec<String>)
    ensures
        str_views(r@) == visible_span(str_views(lines@)),
{
    let ghost ls = str_views(lines@);
    let n = lines.len();
    let mut start: usize = 0;
    while start < n && line_is_blank(lines[start].as_str())
        invariant
            n == lines@.len(),
            ls == str_views(lines@),
            start <= n,
            first_visible(ls, 0) == first_visible(ls, start as int),
        decreases n - start,
    {
        start = start + 1;
    }
    let mut end: usize = n;
    while end > 0 && line_is_blank(lines[end - 1].as_str())
        invariant
            n == lines@.len(),
            ls == str_views(lines@),
            end <= n,
            visible_end(ls, n as int) == visible_end(ls, end as int),
        decreases end,
    {
        end = end - 1;
    }
    proof {
        assert(first_visible(ls, start as int) == start as int);
        assert(visible_end(ls, end as int) == end as int);
    }
    if start < end {
        copy_range(lines.as_slice(), start, end)
    } else {
        Vec::new()
    }
}

/// Keeps the lines that show something; both ends are trimmed first, which
/// changes nothing here (see `lemma_visible_span_keeps_visible`).
pub fn normalize_list_lines(lines: Vec<String>) -> (r: Vec<String>)
    ensures
        str_views(r@) == keep_visible(str_views(lines@)),
{
    let ghost all = str_views(lines@);
    let trimmed = trim_visual_empty_edges(lines);
    proof {
        lemma_visible_span_keeps_visible(all);
    }
    let ghost ts = str_views(trimmed@);
    let mut out: Vec<String> = Vec::new();
    let mut i: usize = 0;
    while i < trimmed.len()
        invariant
            i <= trimmed@.len(),
            ts == str_views(trimmed@),
            str_views(out@) == keep_visible(ts.subrange(0, i as int)),
        decreases trimmed@.len() - i,
    {
        let ghost pre = ts.subrange(0, i as int);
        let ghost next = ts.subrange(0, i + 1);
        proof {
            assert(next.drop_last() == pre);
            assert(next.last() == ts[i as int]);
        }
        if !line_is_blank(trimmed[i].as_str()) {
            let l = trimmed[i].clone();
            proof {
                lemma_views_push(out@, l);
            }
            out.push(l);
        }
        i = i + 1;
    }
    assert(ts.subrange(0, ts.len() as int) == ts);
    out
}

/// `sequence` occurs as a run of consecutive lines in `lines` (an empty
/// sequence always does).
pub open spec fn contains_run(ls: Seq<Seq<char>>, sq: Seq<Seq<char>>) -> bool {
    sq.len() == 0 || exists|i: int| 0 <= i && i + sq.len() <= ls.len() && #[trigger] ls.subrange(i, i + sq.len()) == sq
}

pub fn contains_line_sequence(lines: &[String], sequence: &[String]) -> (r: bool)
    ensures
        r == contains_run(str_views(lines@), str_views(sequence@)),
{
    let ghost ls = str_views(lines@);
    let ghost sq = str_views(sequence@);
    if sequence.len() == 0 {
        return true;
    }
    if sequence.len() > lines.len() {
        return false;
    }
    let k = sequence.len();
    let n = lines.len();
    let mut i: usize = 0;
    while i <= lines.len() - k
        invariant
            ls == str_views(lines@),
            sq == str_views(sequence@),
            k == sequence@.len(),
            n == lines@.len(),
            0 < k <= lines@.len(),
            i <= lines@.len(),
            forall|t: int| 0 <= t < i ==> #[trigger] ls.subrange(t, t + k) != sq,
        decreases lines@.len() - i,
    {
        let mut j: usize = 0;
        let mut same = true;
        while j < k
            invariant
                ls == str_views(lines@),
                sq == str_views(sequence@),
                k == sequence@.len(),
                n == lines@.len(),
                i + k <= lines@.len(),
                j <= k,
                same == (forall|t: int| 0 <= t < j ==> ls[i + t] == sq[t]),
            decreases k - j,
        {
            proof {
                assert(ls[i + j] == lines@[i + j]@);
                assert(sq[j as int] == sequence@[j as int]@);
            }
            if lines[i + j] != sequence[j] {
                same = false;
            }
            j = j + 1;
        }
        if same {
            assert(ls.subrange(i as int, i + k) =~= sq);
            return true;
        }
        proof {
            let t = choose|t: int| 0 <= t < k && ls[i + t] != sq[t];
            assert(ls.subrange(i as int, i + k)[t] == ls[i + t]);
        }
        i = i + 1;
    }
    proof {
        assert forall|t: int| 0 <= t && t + k <= ls.len() implies #[trigger] ls.subrange(t, t + k) != sq by {
            assert(t < i);
        }
    }
    false
}

// ---------------------------------------------------------------------------
// Ranges and tails
// ---------------------------------------------------------------------------

/// A line position: counted from the end when negative, clamped to
/// `0..=len`.
pub open spec fn line_position(len: nat, index: int) -> int {
    if index < 0 {
        if len + index > 0 {
            len + index
        } else {
            0
        }
    } else if index < len {
        index
    } else {
        len as int
    }
}

pub fn line_index(len: usize, index: isize) -> (r: usize)
    ensures
        r == line_position(len as nat, index as int),
{
    if index < 0 {
        let back: i128 = 0 - (index as i128);
        if (len as i128) > back {
            ((len as i128) - back) as usize
        } else {
            0
        }
    } else if (index as usize) < len {
        index as usize
    } else {
        len
    }
}

/// Lines `start..=end` of `ls` (positions as [`line_position`]; no `end`
/// means to the last line).
pub open spec fn range_of(ls: Seq<Seq<char>>, start: int, end: Option<int>) -> Seq<Seq<char>> {
    let n = ls.len();
    let s = line_position(n, start);
    let e = match end {
        Some(x) => if line_position(n, x) + 1 < n {
            line_position(n, x) + 1
        } else {
            n as int
        },
        None => n as int,
    };
    if s < e {
        ls.subrange(s, e)
    } else {
        seq![]
    }
}

/// The lines of a text as strings (`str::lines`).
pub fn text_lines(text: &str) -> (r: Vec<String>)
    ensures
        str_views(r@) == lines(text@),
{
    let c = chars_of(text);
    let ls = lines_of(c.as_slice());
    let mut out: Vec<String> = Vec::new();
    let mut i: usize = 0;
    while i < ls.len()
        invariant
            i <= ls@.len(),
            ls@.len() == lines(text@).len(),
            c@ == text@,
            forall|j: int| 0 <= j < ls@.len() ==> #[trigger] ls@[j]@ == lines(c@)[j],
            str_views(out@) == lines(text@).subrange(0, i as int),
        decreases ls@.len() - i,
    {
        let line = string_of(ls[i].as_slice());
        proof {
            lemma_views_push(out@, line);
            assert(lines(text@).subrange(0, i + 1) =~= lines(text@).subrange(0, i as int).push(line@));
        }
        out.push(line);
        i = i + 1;
    }
    assert(lines(text@).subrange(0, lines(text@).len() as int) == lines(text@));
    out
}

/// Lines `start..=end` of a text (`capture --start/--end`).
pub fn lines_range(text: &str, start: isize, end: Option<isize>) -> (r: Vec<String>)
    ensures
        str_views(r@) == range_of(lines(text@), start as int, match end {
            Some(x) => Some(x as int),
            None => None,
        }),
{
    let ls = text_lines(text);
    let n = ls.len();
    let s = line_index(n, start);
    let e = match end {
        Some(x) => {
            let p = line_index(n, x);
            if p < n && p + 1 < n {
                p + 1
            } else {
                n
            }
        },
        None => n,
    };
    if s < e {
        copy_range(ls.as_slice(), s, e)
    } else {
        Vec::new()
    }
}

/// The last `limit` lines.
pub open spec fn last_of(ls: Seq<Seq<char>>, limit: nat) -> Seq<Seq<char>> {
    if ls.len() > limit {
        ls.subrange(ls.len() - limit, ls.len() as int)
    } else {
        ls
    }
}

pub fn last_lines(lines: Vec<String>, limit: usize) -> (r: Vec<String>)
    ensures
        str_views(r@) == last_of(str_views(lines@), limit as nat),
{
    let n = lines.len();
    if n > limit {
        copy_range(lines.as_slice(), n - limit, n)
    } else {
        lines
    }
}

/// The first `limit` lines.
pub open spec fn first_of(ls: Seq<Seq<char>>, limit: nat) -> Seq<Seq<char>> {
    if ls.len() > limit {
        ls.subrange(0, limit as int)
    } else {
        ls
    }
}

pub fn first_lines(lines: Vec<String>, limit: usize) -> (r: Vec<String>)
    ensures
        str_views(r@) == first_of(str_views(lines@), limit as nat),
{
    if lines.len() > limit {
        copy_range(lines.as_slice(), 0, limit)
    } else {
        lines
    }
}

/// The visible lines of a terminal log once rendered.
pub fn visible_lines(bytes: &[u8]) -> (r: Vec<String>)
    requires
        render_fits(bytes@.len() as int),
    ensures
        str_views(r@) == keep_visible(lines(rendered(bytes@))),
{
    let text = render_terminal_text(bytes);
    normalize_list_lines(text_lines(text.as_str()))
}

/// The last `limit` visible lines of a log (or of what follows an offset).
pub fn tail_visible_lines(bytes: &[u8], limit: usize) -> (r: Vec<String>)
    requires
        render_fits(bytes@.len() as int),
    ensures
        str_views(r@) == last_of(keep_visible(lines(rendered(bytes@))), limit as nat),
{
    last_lines(visible_lines(bytes), limit)
}

/// The first `limit` visible lines of a log.
pub fn head_visible_lines(bytes: &[u8], limit: usize) -> (r: Vec<String>)
    requires
        render_fits(bytes@.len() as int),
    ensures
        str_views(r@) == first_of(keep_visible(lines(rendered(bytes@))), limit as nat),
{
    first_lines(visible_lines(bytes), limit)
}

/// The last `limit` lines of a raw log, read as UTF-8 with invalid
/// sequences replaced.
pub fn raw_tail_lines(bytes: &[u8], limit: usize) -> (r: Vec<String>)
    ensures
        str_views(r@) == last_of(lines(read_text(bytes@)), limit as nat),
{
    let text = utf8_lossy(bytes);
    last_lines(text_lines(text.as_str()), limit)
}

/// Bytes read from the end of a log at first when looking for its tail.
pub const CONTEXT_OUTPUT_WINDOW_BYTES: u64 = 65536;

/// The most bytes read from the end of a log.
pub const CONTEXT_OUTPUT_MAX_BYTES: u64 = 1048576;

/// After reading the last `window` bytes of a log `file_len` long and
/// finding `found` visible lines: `None` when these lines will do, else the
/// next, doubled window (at most the maximum).
pub open spec fn next_window(window: u64, file_len: u64, found: nat, limit: nat) -> Option<u64> {
    if found >= limit || window >= file_len || window >= CONTEXT_OUTPUT_MAX_BYTES {
        None
    } else if window * 2 < CONTEXT_OUTPUT_MAX_BYTES {
        Some((window * 2) as u64)
    } else {
        Some(CONTEXT_OUTPUT_MAX_BYTES)
    }
}

pub fn tail_window_next(window: u64, file_len: u64, found: usize, limit: usize) -> (r: Option<u64>)
    ensures
        r == next_window(window, file_len, found as nat, limit as nat),
{
    if found >= limit || window >= file_len || window >= CONTEXT_OUTPUT_MAX_BYTES {
        None
    } else if window * 2 < CONTEXT_OUTPUT_MAX_BYTES {
        Some(window * 2)
    } else {
        Some(CONTEXT_OUTPUT_MAX_BYTES)
    }
}

/// Law: the window only grows, never past the maximum, so the search for a
/// tail reads the log at most a handful of times.
pub proof fn lemma_window_grows(window: u64, file_len: u64, found: nat, limit: nat)
    requires
        window > 0,
    ensures
        next_window(window, file_len, found, limit) matches Some(w) ==> window < w
            <= CONTEXT_OUTPUT_MAX_BYTES,
{
}

/// A transcript printed whole ends with a newline.
pub fn with_final_newline(text: &str) -> (r: String)
    ensures
        r@ == (if text@.len() > 0 && text@.last() != '\n' {
            text@.push('\n')
        } else {
            text@
        }),
{
    let mut c = chars_of(text);
    if c.len() > 0 && c[c.len() - 1] != '\n' {
        c.push('\n');
    }
    string_of(c.as_slice())
}

// ---------------------------------------------------------------------------
// The context report of one session
// ---------------------------------------------------------------------------

pub open spec fn truncated_all(ls: Seq<Seq<char>>) -> Seq<Seq<char>> {
    ls.map_values(|l: Seq<char>| truncated_line(l))
}

/// An output block: a blank line, a heading with the line count, and the
/// lines (each cut to its maximum).
pub open spec fn output_block(title: Seq<char>, ls: Seq<Seq<char>>) -> Seq<Seq<char>> {
    seq![seq![], "--- "@ + title + " ("@ + decimal(ls.len()) + " lines) ---"@] + truncated_all(ls)
}

/// The lines `hitch context` prints for one session: where it is, when it
/// was last used, whether a command runs, then (unless `no_output`) the
/// head of the running command's output when the recent output does not
/// already hold it, and the recent output.
pub open spec fn context_text(
    cwd: Seq<char>,
    home: Option<Seq<char>>,
    running: bool,
    last_activity: Option<u64>,
    started: Option<u64>,
    now: u64,
    no_output: bool,
    head: Seq<Seq<char>>,
    tail: Seq<Seq<char>>,
) -> Seq<Seq<char>> {
    let activity = match last_activity {
        Some(t) => ago_text(t, now),
        None => "unknown"@,
    };
    let status = if running {
        "process is running for "@ + match started {
            Some(t) => running_text(t, now),
            None => "unknown time"@,
        }
    } else {
        "no actively running commands"@
    };
    let top = seq!["current dir: "@ + shortened(cwd, home), "last input was "@ + activity, status];
    if no_output {
        top
    } else {
        let head_part = if running && head.len() > 0 && !contains_run(tail, head) {
            output_block("active output head"@, head)
        } else {
            seq![]
        };
        let tail_part = if tail.len() > 0 {
            output_block("recent output"@, tail)
        } else {
            seq![]
        };
        let end = if head_part.len() > 0 || tail_part.len() > 0 {
            seq![]
        } else if running {
            seq![seq![], "no visible output yet"@]
        } else {
            seq![seq![], "no visible output"@]
        };
        top + head_part + tail_part + end
    }
}

fn push_line(out: &mut Vec<String>, chars: Vec<char>)
    ensures
        str_views(final(out)@) == str_views(old(out)@).push(chars@),
{
    let l = string_of(chars.as_slice());
    proof {
        lemma_views_push(out@, l);
    }
    out.push(l);
}

fn push_block(out: &mut Vec<String>, title: &str, lines: &Vec<String>)
    ensures
        str_views(final(out)@) == str_views(old(out)@) + output_block(title@, str_views(lines@)),
{
    push_line(out, Vec::new());
    let mut h: Vec<char> = Vec::new();
    push_str(&mut h, "--- ");
    push_str(&mut h, title);
    push_str(&mut h, " (");
    push_decimal(&mut h, lines.len() as u128);
    push_str(&mut h, " lines) ---");
    push_line(out, h);
    let ghost base = str_views(out@);
    let mut i: usize = 0;
    while i < lines.len()
        invariant
            i <= lines@.len(),
            str_views(out@) == base + truncated_all(str_views(lines@)).subrange(0, i as int),
        decreases lines@.len() - i,
    {
        let t = truncate_context_line(lines[i].as_str());
        proof {
            lemma_views_push(out@, t);
            assert(base + truncated_all(str_views(lines@)).subrange(0, i + 1) =~= (base
                + truncated_all(str_views(lines@)).subrange(0, i as int)).push(t@));
        }
        out.push(t);
        i = i + 1;
    }
    assert(truncated_all(str_views(lines@)).subrange(0, lines@.len() as int) =~= truncated_all(
        str_views(lines@),
    ));
    assert(str_views(out@) =~= str_views(old(out)@) + output_block(title@, str_views(lines@)));
}

/// The context report of a session whose directory is `cwd`, given its
/// state, the time, and its output: `head` is the start of the running
/// command's output, `tail` the most recent visible lines.
pub fn context_session_lines(
    cwd: &str,
    home: Option<&str>,
    state: &SessionState,
    now: u64,
    no_output: bool,
    head: &Vec<String>,
    tail: &Vec<String>,
) -> (r: Vec<String>)
    ensures
        str_views(r@) == context_text(
            cwd@,
            match home {
                Some(h) => Some(h@),
                None => None,
            },
            state.command_running,
            state.last_activity_at,
            state.command_started_at,
            now,
            no_output,
            str_views(head@),
            str_views(tail@),
        ),
{
    let ghost want = context_text(
        cwd@,
        match home {
            Some(h) => Some(h@),
            None => None,
        },
        state.command_running,
        state.last_activity_at,
        state.command_started_at,
        now,
        no_output,
        str_views(head@),
        str_views(tail@),
    );
    let mut out: Vec<String> = Vec::new();
    let mut l1: Vec<char> = Vec::new();
    push_str(&mut l1, "current dir: ");
    let shown = crate::paths::shorten_home(cwd, home);
    push_str(&mut l1, shown.as_str());
    push_line(&mut out, l1);
    let mut l2: Vec<char> = Vec::new();
    push_str(&mut l2, "last input was ");
    match state.last_activity_at {
        Some(t) => {
            let a = time_ago(t, now);
            push_str(&mut l2, a.as_str());
        },
        None => push_str(&mut l2, "unknown"),
    }
    push_line(&mut out, l2);
    let mut l3: Vec<char> = Vec::new();
    if state.command_running {
        push_str(&mut l3, "process is running for ");
        match state.command_started_at {
            Some(t) => {
                let d = running_for(t, now);
                push_str(&mut l3, d.as_str());
            },
            None => push_str(&mut l3, "unknown time"),
        }
    } else {
        push_str(&mut l3, "no actively running commands");
    }
    push_line(&mut out, l3);
    if no_output {
        assert(str_views(out@) =~= want);
        return out;
    }
    let ghost top = str_views(out@);
    let show_head = state.command_running && head.len() > 0 && !contains_line_sequence(
        tail.as_slice(),
        head.as_slice(),
    );
    if show_head {
        push_block(&mut out, "active output head", head);
    }
    let ghost with_head = str_views(out@);
    if tail.len() > 0 {
        push_block(&mut out, "recent output", tail);
    }
    let ghost with_tail = str_views(out@);
    if !show_head && tail.len() == 0 {
        push_line(&mut out, Vec::new());
        if state.command_running {
            push_line(&mut out, chars_of("no visible output yet"));
        } else {
            push_line(&mut out, chars_of("no visible output"));
        }
    }
    proof {
        let hp = if show_head {
            output_block("active output head"@, str_views(head@))
        } else {
            seq![]
        };
        let tp = if tail@.len() > 0 {
            output_block("recent output"@, str_views(tail@))
        } else {
            seq![]
        };
        assert(with_head =~= top + hp);
        assert(with_tail =~= top + hp + tp);
        assert(str_views(out@) =~= want);
    }
    out
}

} // verus!
