//! Rendering of raw terminal output into the text a reader would see.
//!
//! A small text-only terminal is driven by the output bytes: printable text is
//! written at the cursor, `\r`, `\n`, backspace and tab move it, and the
//! escape sequences for cursor movement and erasing are applied; other
//! sequences (titles, colours) are skipped. The meaning of every operation is
//! given by a spec function over [`TermView`], and [`render_terminal_text`]
//! is proved to compute [`rendered`].
use vstd::prelude::*;
use vstd::utf8::{decode_first_scalar, length_of_first_scalar, valid_first_scalar, char_u32_cast};
use crate::text::{join_lines, parse_unsigned, string_of, trim_end, trim_end_len};
use crate::utf8::{first_scalar_len, first_scalar_value, lemma_valid_first_is_scalar, scalar_char, suffix};

verus! {

// ---------------------------------------------------------------------------
// The terminal model
// ---------------------------------------------------------------------------

/// Rows of characters, a cursor, and a saved cursor position.
pub struct TermView {
    pub rows: Seq<Seq<char>>,
    pub row: nat,
    pub col: nat,
    pub saved: Option<(nat, nat)>,
}

pub open spec fn initial_term() -> TermView {
    TermView { rows: seq![seq![]], row: 0, col: 0, saved: None }
}

pub open spec fn sat_sub(a: nat, b: nat) -> nat {
    if a >= b {
        (a - b) as nat
    } else {
        0
    }
}

pub open spec fn min_nat(a: nat, b: nat) -> nat {
    if a <= b {
        a
    } else {
        b
    }
}

pub open spec fn blank_rows(n: nat) -> Seq<Seq<char>> {
    Seq::new(n, |i: int| Seq::<char>::empty())
}

pub open spec fn spaces(n: nat) -> Seq<char> {
    Seq::new(n, |i: int| ' ')
}

/// Adds empty rows until the cursor row exists.
pub open spec fn ensure_row(v: TermView) -> TermView {
    if v.row < v.rows.len() {
        v
    } else {
        TermView { rows: v.rows + blank_rows((v.row + 1 - v.rows.len()) as nat), ..v }
    }
}

/// A line after writing `ch` at column `col`: padded with spaces up to the
/// column, then the character appended or overwritten.
pub open spec fn put_line(line: Seq<char>, col: nat, ch: char) -> Seq<char> {
    let padded = if col > line.len() {
        line + spaces((col - line.len()) as nat)
    } else {
        line
    };
    if col == padded.len() {
        padded.push(ch)
    } else {
        padded.update(col as int, ch)
    }
}

/// Writes a character at the cursor and moves right.
pub open spec fn put(v: TermView, ch: char) -> TermView {
    let w = ensure_row(v);
    TermView {
        rows: w.rows.update(w.row as int, put_line(w.rows[w.row as int], w.col, ch)),
        col: w.col + 1,
        ..w
    }
}

pub open spec fn put_n(v: TermView, ch: char, n: nat) -> TermView
    decreases n,
{
    if n == 0 {
        v
    } else {
        put(put_n(v, ch, (n - 1) as nat), ch)
    }
}

pub open spec fn newline(v: TermView) -> TermView {
    ensure_row(TermView { row: v.row + 1, col: 0, ..v })
}

pub open spec fn set_row(v: TermView, line: Seq<char>) -> TermView {
    TermView { rows: v.rows.update(v.row as int, line), ..v }
}

/// Erases from the cursor to the end of the line.
pub open spec fn clear_line_from_cursor(v: TermView) -> TermView {
    let w = ensure_row(v);
    let line = w.rows[w.row as int];
    set_row(w, line.take(min_nat(w.col, line.len()) as int))
}

/// Blanks the line up to the cursor.
pub open spec fn clear_line_to_cursor(v: TermView) -> TermView {
    let w = ensure_row(v);
    let line = w.rows[w.row as int];
    let end = min_nat(w.col, line.len());
    set_row(w, Seq::new(line.len(), |k: int| if k < end { ' ' } else { line[k] }))
}

/// Erases the whole line and returns to its start.
pub open spec fn clear_line(v: TermView) -> TermView {
    let w = ensure_row(v);
    TermView { col: 0, ..set_row(w, seq![]) }
}

/// Erases from the cursor to the end of the screen.
pub open spec fn clear_screen_from_cursor(v: TermView) -> TermView {
    let w = clear_line_from_cursor(v);
    TermView { rows: w.rows.take(min_nat(w.row + 1, w.rows.len()) as int), ..w }
}

pub proof fn lemma_set_row_twice(v: TermView, a: Seq<char>, b: Seq<char>)
    requires
        v.row < v.rows.len(),
    ensures
        set_row(set_row(v, a), b) == set_row(v, b),
{
    assert(v.rows.update(v.row as int, a).update(v.row as int, b) =~= v.rows.update(
        v.row as int,
        b,
    ));
}

pub proof fn lemma_ensure_row(v: TermView)
    ensures
        ensure_row(v).row < ensure_row(v).rows.len(),
        ensure_row(v).row == v.row,
        ensure_row(v).col == v.col,
        ensure_row(v).saved == v.saved,
        forall|k: int| 0 <= k < v.rows.len() ==> ensure_row(v).rows[k] == v.rows[k],
{
}

/// The text of the screen: each row without trailing whitespace, joined by
/// newlines.
pub open spec fn finish(v: TermView) -> Seq<char> {
    join_lines(v.rows.map_values(|r: Seq<char>| trim_end(r)))
}

// ---------------------------------------------------------------------------
// Escape sequences
// ---------------------------------------------------------------------------

/// Where an OSC string that starts at `i` ends: after BEL, after `ESC \`, or
/// at the end of the input.
pub open spec fn osc_end(b: Seq<u8>, i: int) -> int
    decreases b.len() - i,
{
    if i < 0 {
        0
    } else if i >= b.len() {
        i
    } else if b[i] == 0x07 {
        i + 1
    } else if b[i] == 0x1b && i + 1 < b.len() && b[i + 1] == 0x5c {
        i + 2
    } else {
        osc_end(b, i + 1)
    }
}

/// The index of the first CSI final byte (0x40..=0x7e) at or after `i`, or
/// the input length.
pub open spec fn csi_end(b: Seq<u8>, i: int) -> int
    decreases b.len() - i,
{
    if i < 0 {
        0
    } else if i >= b.len() {
        i
    } else if 0x40 <= b[i] && b[i] <= 0x7e {
        i
    } else {
        csi_end(b, i + 1)
    }
}

/// The index of the first `x` at or after `from`.
pub open spec fn find_byte_from(s: Seq<u8>, x: u8, from: int) -> Option<int>
    decreases s.len() - from,
{
    if from < 0 || from >= s.len() {
        None
    } else if s[from] == x {
        Some(from)
    } else {
        find_byte_from(s, x, from + 1)
    }
}

/// Leading `?` bytes removed.
pub open spec fn strip_questions(t: Seq<u8>) -> Seq<u8>
    decreases t.len(),
{
    if t.len() > 0 && t[0] == 0x3f {
        strip_questions(t.drop_first())
    } else {
        t
    }
}

pub open spec fn byte_chars(p: Seq<u8>) -> Seq<char> {
    p.map_values(|x: u8| (x as u32) as char)
}

/// One `;`-separated parameter: its value when it parses as a `u16`.
pub open spec fn param_of(part: Seq<u8>) -> Seq<u16> {
    match parse_unsigned(byte_chars(part), 65535) {
        Some(v) => seq![v as u16],
        None => seq![],
    }
}

pub open spec fn params_from(t: Seq<u8>, from: int) -> Seq<u16>
    decreases t.len() - from,
{
    if from < 0 || from > t.len() {
        seq![]
    } else {
        match find_byte_from(t, 0x3b, from) {
            None => param_of(t.subrange(from, t.len() as int)),
            Some(k) => if from <= k < t.len() {
                param_of(t.subrange(from, k)) + params_from(t, k + 1)
            } else {
                seq![]
            },
        }
    }
}

/// The numeric parameters of a CSI sequence: leading `?` removed, split at
/// `;`, and the parts that parse as `u16` kept in order. (Parsing the bytes
/// directly gives what parsing their lossy UTF-8 text gives: `;`, `?` and
/// digits are ASCII, and any other byte makes its part fail either way.)
pub open spec fn csi_params(p: Seq<u8>) -> Seq<u16> {
    params_from(strip_questions(p), 0)
}

/// A CSI sequence with final byte `fin` and the given parameters applied.
pub open spec fn csi_apply(v: TermView, fin: u8, params: Seq<u16>) -> TermView {
    let first1: nat = if params.len() > 0 {
        params[0] as nat
    } else {
        1
    };
    let n: nat = if first1 >= 1 {
        first1
    } else {
        1
    };
    let first0: nat = if params.len() > 0 {
        params[0] as nat
    } else {
        0
    };
    let second1: nat = if params.len() > 1 {
        params[1] as nat
    } else {
        1
    };
    if fin == 0x41 {
        TermView { row: sat_sub(v.row, n), ..v }
    } else if fin == 0x42 {
        ensure_row(TermView { row: v.row + n, ..v })
    } else if fin == 0x43 {
        TermView { col: v.col + n, ..v }
    } else if fin == 0x44 {
        TermView { col: sat_sub(v.col, n), ..v }
    } else if fin == 0x47 {
        TermView { col: sat_sub(n, 1), ..v }
    } else if fin == 0x48 || fin == 0x66 {
        ensure_row(TermView { row: sat_sub(first1, 1), col: sat_sub(second1, 1), ..v })
    } else if fin == 0x4a {
        if first0 == 0 {
            clear_screen_from_cursor(v)
        } else {
            v
        }
    } else if fin == 0x4b {
        if first0 == 0 {
            clear_line_from_cursor(v)
        } else if first0 == 1 {
            clear_line_to_cursor(v)
        } else if first0 == 2 {
            clear_line(v)
        } else {
            v
        }
    } else {
        v
    }
}

/// A CSI sequence whose parameters start at `s`: (next index, terminal).
pub open spec fn csi_step(b: Seq<u8>, s: int, v: TermView) -> (int, TermView) {
    let e = csi_end(b, s);
    if e >= b.len() {
        (e, v)
    } else {
        (e + 1, csi_apply(v, b[e], csi_params(b.subrange(s, e))))
    }
}

/// An escape sequence starting with the ESC at `i`.
pub open spec fn escape_step(b: Seq<u8>, i: int, v: TermView) -> (int, TermView) {
    let j = i + 1;
    if j >= b.len() {
        (j, v)
    } else if b[j] == 0x5d {
        (osc_end(b, j + 1), v)
    } else if b[j] == 0x37 {
        (j + 1, TermView { saved: Some((v.row, v.col)), ..v })
    } else if b[j] == 0x38 {
        (
            j + 1,
            match v.saved {
                Some(p) => ensure_row(TermView { row: p.0, col: p.1, ..v }),
                None => v,
            },
        )
    } else if b[j] == 0x5b {
        csi_step(b, j + 1, v)
    } else {
        (j + 1, v)
    }
}

/// One input position: (next index, terminal).
pub open spec fn render_step(b: Seq<u8>, i: int, v: TermView) -> (int, TermView) {
    let c = b[i];
    if c == 0x0d {
        (i + 1, TermView { col: 0, ..v })
    } else if c == 0x0a {
        (i + 1, newline(v))
    } else if c == 0x08 {
        (i + 1, TermView { col: sat_sub(v.col, 1), ..v })
    } else if c == 0x09 {
        (i + 1, put_n(v, ' ', (8 - v.col % 8) as nat))
    } else if c == 0x1b {
        escape_step(b, i, v)
    } else if c >= 0x20 {
        let rest = suffix(b, i);
        if valid_first_scalar(rest) {
            (i + length_of_first_scalar(rest), put(v, decode_first_scalar(rest) as char))
        } else {
            (i + 1, put(v, (c as u32) as char))
        }
    } else {
        (i + 1, v)
    }
}

/// The terminal after the input from `i` on.
pub open spec fn render_run(b: Seq<u8>, i: int, v: TermView) -> TermView
    decreases b.len() - i,
{
    if i < 0 || i >= b.len() {
        v
    } else {
        let (j, w) = render_step(b, i, v);
        if j <= i || j > b.len() {
            w
        } else {
            render_run(b, j, w)
        }
    }
}

/// The text that output `b` leaves on the screen.
pub open spec fn rendered(b: Seq<u8>) -> Seq<char> {
    finish(render_run(b, 0, initial_term()))
}

// ---------------------------------------------------------------------------
// The executable terminal
// ---------------------------------------------------------------------------

pub open spec fn row_views(rows: Seq<Vec<char>>) -> Seq<Seq<char>> {
    rows.map_values(|r: Vec<char>| r@)
}

/// The text terminal that rendering drives.
pub struct TextTerminal {
    rows: Vec<Vec<char>>,
    row: usize,
    col: usize,
    saved: Option<(usize, usize)>,
}

impl View for TextTerminal {
    type V = TermView;

    closed spec fn view(&self) -> TermView {
        TermView {
            rows: row_views(self.rows@),
            row: self.row as nat,
            col: self.col as nat,
            saved: match self.saved {
                Some(p) => Some((p.0 as nat, p.1 as nat)),
                None => None,
            },
        }
    }
}

impl TextTerminal {
    /// An empty screen with the cursor at the top left.
    pub fn new() -> (r: Self)
        ensures
            r@ == initial_term(),
    {
        let mut rows: Vec<Vec<char>> = Vec::new();
        rows.push(Vec::new());
        let r = TextTerminal { rows, row: 0, col: 0, saved: None };
        proof {
            assert(r@.rows =~= seq![Seq::<char>::empty()]);
        }
        r
    }

    fn ensure_row(&mut self)
        requires
            old(self)@.row < usize::MAX,
        ensures
            final(self)@ == ensure_row(old(self)@),
            final(self).row < final(self).rows@.len(),
            final(self).row == old(self).row,
            final(self).col == old(self).col,
            final(self).saved == old(self).saved,
    {
        let ghost v = self@;
        while self.row >= self.rows.len()
            invariant
                self.row == v.row,
                self.col == v.col,
                self.saved == old(self).saved,
                v.row < usize::MAX,
                v.rows.len() <= v.row ==> self.rows@.len() <= v.row + 1,
                v.rows == row_views(old(self).rows@),
                v.rows.len() <= v.row ==> row_views(self.rows@) == v.rows + blank_rows(
                    (self.rows@.len() - v.rows.len()) as nat,
                ),
                v.rows.len() > v.row ==> self@ == v,
                self.rows@.len() >= v.rows.len(),
            decreases v.row + 1 - self.rows@.len(),
        {
            let ghost before = row_views(self.rows@);
            self.rows.push(Vec::new());
            proof {
                let k = (self.rows@.len() - 1 - v.rows.len()) as nat;
                assert(row_views(self.rows@) =~= before.push(Seq::<char>::empty()));
                assert(blank_rows(k + 1) =~= blank_rows(k).push(Seq::<char>::empty()));
                assert(v.rows + blank_rows(k + 1) =~= (v.rows + blank_rows(k)).push(
                    Seq::<char>::empty(),
                ));
            }
        }
        proof {
            if v.rows.len() > v.row {
                assert(self@ == v);
            } else {
                assert(self@.rows =~= v.rows + blank_rows((v.row + 1 - v.rows.len()) as nat));
            }
        }
    }

    /// Takes the cursor row out (leaving it empty) so that it can be edited.
    fn take_row(&mut self) -> (line: Vec<char>)
        requires
            old(self).row < old(self).rows@.len(),
        ensures
            line@ == old(self)@.rows[old(self).row as int],
            final(self)@ == set_row(old(self)@, seq![]),
            final(self).rows@.len() == old(self).rows@.len(),
            final(self).row == old(self).row,
            final(self).col == old(self).col,
            final(self).saved == old(self).saved,
            forall|j: int|
                0 <= j < old(self).rows@.len() && j != old(self).row ==> final(self).rows@[j]
                    == old(self).rows@[j],
    {
        let ghost before = self.rows@;
        let mut line: Vec<char> = Vec::new();
        let r = self.row;
        std::mem::swap(&mut line, &mut self.rows[r]);
        proof {
            assert(row_views(self.rows@) =~= row_views(before).update(r as int, seq![]));
        }
        line
    }

    /// Puts an edited row back at the cursor row.
    fn put_row(&mut self, line: Vec<char>)
        requires
            old(self).row < old(self).rows@.len(),
        ensures
            final(self)@ == set_row(old(self)@, line@),
            final(self).rows@.len() == old(self).rows@.len(),
            final(self).row == old(self).row,
            final(self).col == old(self).col,
    {
        let ghost before = self.rows@;
        let r = self.row;
        self.rows[r] = line;
        proof {
            assert(row_views(self.rows@) =~= row_views(before).update(r as int, line@));
        }
    }

    fn put(&mut self, ch: char)
        requires
            old(self)@.row < usize::MAX,
            old(self)@.col < usize::MAX,
        ensures
            final(self)@ == put(old(self)@, ch),
    {
        self.ensure_row();
        let ghost w = self@;
        proof {
            lemma_ensure_row(old(self)@);
        }
        let ghost base = w.rows[w.row as int];
        let mut line = self.take_row();
        let ghost mid = self@;
        while self.col > line.len()
            invariant
                self.col == w.col,
                self@ == mid,
                base.len() >= w.col ==> line@ == base,
                base.len() < w.col ==> line@ == base + spaces((line@.len() - base.len()) as nat)
                    && base.len() <= line@.len() <= w.col,
            decreases self.col - line@.len(),
        {
            let ghost before = line@;
            line.push(' ');
            proof {
                let k = (before.len() - base.len()) as nat;
                assert(spaces(k + 1) =~= spaces(k).push(' '));
                assert(base + spaces(k + 1) =~= (base + spaces(k)).push(' '));
            }
        }
        proof {
            let padded = if w.col > base.len() {
                base + spaces((w.col - base.len()) as nat)
            } else {
                base
            };
            assert(line@ == padded);
        }
        let c = self.col;
        if c == line.len() {
            line.push(ch);
        } else {
            line.set(c, ch);
        }
        proof {
            assert(line@ == put_line(base, w.col, ch));
        }
        self.put_row(line);
        proof {
            lemma_set_row_twice(w, seq![], put_line(base, w.col, ch));
        }
        self.col = self.col + 1;
    }

    fn newline(&mut self)
        requires
            old(self)@.row + 1 < usize::MAX,
        ensures
            final(self)@ == newline(old(self)@),
    {
        self.row = self.row + 1;
        self.col = 0;
        self.ensure_row();
    }

    fn clear_line_from_cursor(&mut self)
        requires
            old(self)@.row < usize::MAX,
        ensures
            final(self)@ == clear_line_from_cursor(old(self)@),
            final(self).row == old(self).row,
            final(self).row < final(self).rows@.len(),
    {
        self.ensure_row();
        let ghost w = self@;
        proof {
            lemma_ensure_row(old(self)@);
        }
        let mut line = self.take_row();
        let ghost base = line@;
        let c = self.col;
        line.truncate(c);
        proof {
            assert(line@ =~= base.take(min_nat(w.col, base.len()) as int));
        }
        self.put_row(line);
        proof {
            lemma_set_row_twice(w, seq![], base.take(min_nat(w.col, base.len()) as int));
        }
    }

    fn clear_line_to_cursor(&mut self)
        requires
            old(self)@.row < usize::MAX,
        ensures
            final(self)@ == clear_line_to_cursor(old(self)@),
    {
        self.ensure_row();
        let ghost w = self@;
        let mut line = self.take_row();
        let end = if self.col < line.len() {
            self.col
        } else {
            line.len()
        };
        let ghost orig = line@;
        let mut k: usize = 0;
        while k < end
            invariant
                end <= line@.len(),
                line@.len() == orig.len(),
                k <= end,
                forall|j: int| 0 <= j < k ==> line@[j] == ' ',
                forall|j: int| k <= j < orig.len() ==> line@[j] == orig[j],
            decreases end - k,
        {
            line.set(k, ' ');
            k = k + 1;
        }
        proof {
            let target = Seq::new(orig.len(), |j: int| if j < end { ' ' } else { orig[j] });
            assert(line@ =~= target);
            lemma_ensure_row(old(self)@);
            lemma_set_row_twice(w, seq![], target);
        }
        self.put_row(line);
    }

    fn clear_line(&mut self)
        requires
            old(self)@.row < usize::MAX,
        ensures
            final(self)@ == clear_line(old(self)@),
    {
        self.ensure_row();
        let ghost w = self@;
        proof {
            lemma_ensure_row(old(self)@);
        }
        let _ = self.take_row();
        self.put_row(Vec::new());
        proof {
            lemma_set_row_twice(w, seq![], seq![]);
        }
        self.col = 0;
    }

    fn clear_screen_from_cursor(&mut self)
        requires
            old(self)@.row < usize::MAX,
        ensures
            final(self)@ == clear_screen_from_cursor(old(self)@),
    {
        self.clear_line_from_cursor();
        let ghost before = self.rows@;
        self.rows.truncate(self.row + 1);
        proof {
            assert(row_views(self.rows@) =~= row_views(before).take(
                min_nat((self.row + 1) as nat, before.len()) as int,
            ));
        }
    }

    /// The screen text: rows without trailing whitespace, joined by `\n`.
    pub fn finish(self) -> (r: String)
        ensures
            r@ == finish(self@),
    {
        let ghost trimmed = self@.rows.map_values(|r: Seq<char>| trim_end(r));
        let mut out: Vec<char> = Vec::new();
        let n = self.rows.len();
        let mut i: usize = 0;
        while i < n
            invariant
                n == self.rows@.len(),
                i <= n,
                trimmed == self@.rows.map_values(|r: Seq<char>| trim_end(r)),
                trimmed.len() == n,
                out@ == join_lines(trimmed.take(i as int)),
            decreases n - i,
        {
            let line = &self.rows[i];
            let k = trim_end_len(line.as_slice());
            if i > 0 {
                out.push('\n');
            }
            let mut j: usize = 0;
            let ghost start = out@;
            while j < k
                invariant
                    k <= line@.len(),
                    j <= k,
                    out@ == start + line@.subrange(0, j as int),
                decreases k - j,
            {
                out.push(line[j]);
                j = j + 1;
                assert(line@.subrange(0, j as int) == line@.subrange(0, j - 1) + seq![line@[j - 1]]);
            }
            proof {
                assert(trimmed[i as int] == trim_end(self@.rows[i as int]));
                assert(self@.rows[i as int] == line@);
                assert(trimmed.take(i + 1).drop_last() == trimmed.take(i as int));
                assert(trimmed.take(i + 1).last() == trimmed[i as int]);
                if i == 0 {
                    assert(trimmed.take(1) =~= seq![trimmed[0]]);
                }
            }
            i = i + 1;
        }
        proof {
            assert(trimmed.take(n as int) == trimmed);
        }
        string_of(out.as_slice())
    }
}


// ---------------------------------------------------------------------------
// Executable escape handling and rendering
// ---------------------------------------------------------------------------

/// Row, column and saved position are all at most `lim`.
pub open spec fn bounded(v: TermView, lim: int) -> bool {
    &&& v.row <= lim
    &&& v.col <= lim
    &&& v.saved matches Some(p) ==> p.0 <= lim && p.1 <= lim
}

/// The input sizes for which no row or column count can overflow.
pub open spec fn render_fits(n: int) -> bool {
    65536 * (n + 1) <= usize::MAX
}

/// Skips an OSC string that starts at `i`.
pub fn skip_osc(bytes: &[u8], start: usize) -> (r: usize)
    ensures
        r == osc_end(bytes@, start as int),
        start <= bytes@.len() ==> start <= r <= bytes@.len(),
{
    let n = bytes.len();
    let mut i = start;
    let ghost i0 = start;
    while i < n
        invariant
            n == bytes@.len(),
            i0 == start,
            i0 <= i,
            osc_end(bytes@, i0 as int) == osc_end(bytes@, i as int),
            i0 <= n ==> i <= n,
        decreases n - i,
    {
        if bytes[i] == 0x07 {
            assert(bytes@[i as int] == 0x07);
            assert(osc_end(bytes@, i as int) == i + 1);
            return i + 1;
        }
        if bytes[i] == 0x1b && i + 1 < n && bytes[i + 1] == 0x5c {
            assert(osc_end(bytes@, i as int) == i + 2);
            return i + 2;
        }
        i = i + 1;
    }
    i
}

/// The index of the first CSI final byte at or after `i`, or the length.
fn csi_final_index(bytes: &[u8], start: usize) -> (r: usize)
    requires
        start <= bytes@.len(),
    ensures
        r == csi_end(bytes@, start as int),
        start <= r <= bytes@.len(),
{
    let n = bytes.len();
    let mut i = start;
    let ghost i0 = start;
    while i < n && !(0x40 <= bytes[i] && bytes[i] <= 0x7e)
        invariant
            n == bytes@.len(),
            i0 <= i <= n,
            csi_end(bytes@, i0 as int) == csi_end(bytes@, i as int),
        decreases n - i,
    {
        i = i + 1;
    }
    i
}

proof fn lemma_strip_questions(t: Seq<u8>, k: int)
    requires
        0 <= k <= t.len(),
        forall|j: int| 0 <= j < k ==> t[j] == 0x3f,
        k < t.len() ==> t[k] != 0x3f,
    ensures
        strip_questions(t) == t.subrange(k, t.len() as int),
    decreases k,
{
    if k > 0 {
        assert(t.drop_first().subrange(k - 1, t.drop_first().len() as int) == t.subrange(
            k,
            t.len() as int,
        ));
        lemma_strip_questions(t.drop_first(), k - 1);
    } else {
        assert(t.subrange(0, t.len() as int) == t);
    }
}

proof fn lemma_find_byte_from_props(s: Seq<u8>, x: u8, from: int)
    requires
        0 <= from,
    ensures
        find_byte_from(s, x, from) matches Some(i) ==> from <= i < s.len() && s[i] == x && forall|
            j: int,
        |
            from <= j < i ==> s[j] != x,
        find_byte_from(s, x, from) is None ==> forall|j: int| from <= j < s.len() ==> s[j] != x,
    decreases s.len() - from,
{
    if from < s.len() && s[from] != x {
        lemma_find_byte_from_props(s, x, from + 1);
    }
}

/// The value of the parameter `t[a..b]`, when it parses as a `u16`.
fn parse_param(t: &[u8], a: usize, b: usize) -> (r: Option<u16>)
    requires
        a <= b <= t@.len(),
    ensures
        param_of(t@.subrange(a as int, b as int)) == (match r {
            Some(v) => seq![v],
            None => Seq::<u16>::empty(),
        }),
{
    let mut cs: Vec<char> = Vec::new();
    let mut k = a;
    let ghost part = t@.subrange(a as int, b as int);
    while k < b
        invariant
            a <= k <= b <= t@.len(),
            part == t@.subrange(a as int, b as int),
            cs@ == byte_chars(t@.subrange(a as int, k as int)),
        decreases b - k,
    {
        let c = crate::text::byte_char(t[k]);
        proof {
            char_u32_cast(c, t@[k as int] as u32);
        }
        cs.push(c);
        k = k + 1;
        proof {
            assert(byte_chars(t@.subrange(a as int, k as int)) =~= byte_chars(
                t@.subrange(a as int, k - 1),
            ).push(c));
        }
    }
    match crate::text::parse_u64(cs.as_slice()) {
        Some(v) => {
            if v <= 65535 {
                Some(v as u16)
            } else {
                None
            }
        },
        None => None,
    }
}

/// The numeric parameters of the CSI parameter bytes `bytes[a..b]`.
#[verifier::spinoff_prover]
#[verifier::rlimit(40)]
fn parse_params_range(bytes: &[u8], a: usize, b: usize) -> (r: Vec<u16>)
    requires
        a <= b <= bytes@.len(),
    ensures
        r@ == csi_params(bytes@.subrange(a as int, b as int)),
{
    let ghost p = bytes@.subrange(a as int, b as int);
    let mut k = a;
    while k < b && bytes[k] == 0x3f
        invariant
            a <= k <= b <= bytes@.len(),
            forall|j: int| a <= j < k ==> bytes@[j] == 0x3f,
        decreases b - k,
    {
        k = k + 1;
    }
    proof {
        lemma_strip_questions(p, k - a);
        assert(p.subrange(k - a, p.len() as int) == bytes@.subrange(k as int, b as int));
    }
    let ghost t = bytes@.subrange(k as int, b as int);
    let mut out: Vec<u16> = Vec::new();
    let mut from = k;
    let mut more = true;
    proof {
        assert(out@ + params_from(t, 0) == params_from(t, 0));
    }
    while more
        invariant
            k <= b <= bytes@.len(),
            t == bytes@.subrange(k as int, b as int),
            csi_params(p) == params_from(t, 0),
            p == bytes@.subrange(a as int, b as int),
            more ==> k <= from <= b,
            more ==> params_from(t, 0) == out@ + params_from(t, from - k),
            !more ==> params_from(t, 0) == out@,
        decreases (if more { b + 1 - from } else { 0 }),
    {
        let mut e = from;
        while e < b && bytes[e] != 0x3b
            invariant
                from <= e <= b <= bytes@.len(),
                forall|j: int| from <= j < e ==> bytes@[j] != 0x3b,
            decreases b - e,
        {
            e = e + 1;
        }
        let v = parse_param(bytes, from, e);
        proof {
            let f = from - k;
            let ee = e - k;
            lemma_find_byte_from_props(t, 0x3bu8, f);
            assert(t.subrange(f, ee) == bytes@.subrange(from as int, e as int));
            if e < b {
                assert(t[ee] == bytes@[e as int]);
                assert forall|j: int| f <= j < ee implies t[j] != 0x3b by {
                    assert(t[j] == bytes@[k + j]);
                }
                match find_byte_from(t, 0x3bu8, f) {
                    Some(q) => {
                        if q < ee {
                            assert(t[q] == bytes@[k + q]);
                        }
                        assert(q == ee);
                    },
                    None => {},
                }
            } else {
                assert(t.subrange(f, t.len() as int) == t.subrange(f, ee));
                match find_byte_from(t, 0x3bu8, f) {
                    Some(q) => {
                        assert(t[q] == bytes@[k + q]);
                    },
                    None => {},
                }
            }
        }
        let ghost before = out@;
        let ghost f = (from - k) as int;
        match v {
            Some(x) => {
                out.push(x);
            },
            None => {},
        }
        proof {
            assert(out@ == before + param_of(t.subrange(f, (e - k) as int)));
        }
        if e < b {
            from = e + 1;
            proof {
                assert(params_from(t, f) == param_of(t.subrange(f, (e - k) as int)) + params_from(
                    t,
                    (e - k) + 1,
                ));
                assert(before + (param_of(t.subrange(f, (e - k) as int)) + params_from(
                    t,
                    (e - k) + 1,
                )) == out@ + params_from(t, from - k));
            }
        } else {
            more = false;
            proof {
                assert(params_from(t, f) == param_of(t.subrange(f, (e - k) as int)));
            }
        }
    }
    out
}

/// The numeric parameters of a CSI sequence.
pub fn parse_csi_params(bytes: &[u8]) -> (r: Vec<u16>)
    ensures
        r@ == csi_params(bytes@),
{
    proof {
        assert(bytes@.subrange(0, bytes@.len() as int) == bytes@);
    }
    parse_params_range(bytes, 0, bytes.len())
}

pub proof fn lemma_put_n(v: TermView, ch: char, n: nat)
    ensures
        put_n(v, ch, n).row == v.row,
        put_n(v, ch, n).col == v.col + n,
        put_n(v, ch, n).saved == v.saved,
    decreases n,
{
    if n > 0 {
        lemma_put_n(v, ch, (n - 1) as nat);
        lemma_ensure_row(put_n(v, ch, (n - 1) as nat));
    }
}

/// Applies a CSI sequence whose parameters start at `start`.
fn apply_csi(bytes: &[u8], start: usize, term: &mut TextTerminal) -> (r: usize)
    requires
        2 <= start <= bytes@.len(),
        render_fits(bytes@.len() as int),
        bounded(old(term)@, 65536 * (start - 2)),
    ensures
        (r as int, final(term)@) == csi_step(bytes@, start as int, old(term)@),
        start <= r <= bytes@.len(),
        bounded(final(term)@, 65536 * r),
{
    let ghost v = term@;
    let e = csi_final_index(bytes, start);
    if e >= bytes.len() {
        return e;
    }
    let fin = bytes[e];
    let params = parse_params_range(bytes, start, e);
    let first: Option<u16> = if params.len() > 0 {
        Some(params[0])
    } else {
        None
    };
    let second: Option<u16> = if params.len() > 1 {
        Some(params[1])
    } else {
        None
    };
    let first1: u16 = match first {
        Some(p) => p,
        None => 1,
    };
    let first0: u16 = match first {
        Some(p) => p,
        None => 0,
    };
    let second1: u16 = match second {
        Some(p) => p,
        None => 1,
    };
    let n: usize = if first1 >= 1 {
        first1 as usize
    } else {
        1
    };
    if fin == 0x41 {
        term.row = if term.row >= n {
            term.row - n
        } else {
            0
        };
    } else if fin == 0x42 {
        term.row = term.row + n;
        term.ensure_row();
    } else if fin == 0x43 {
        term.col = term.col + n;
    } else if fin == 0x44 {
        term.col = if term.col >= n {
            term.col - n
        } else {
            0
        };
    } else if fin == 0x47 {
        term.col = n - 1;
    } else if fin == 0x48 || fin == 0x66 {
        let r0: u16 = if first1 >= 1 {
            first1 - 1
        } else {
            0
        };
        let c0: u16 = if second1 >= 1 {
            second1 - 1
        } else {
            0
        };
        term.row = r0 as usize;
        term.col = c0 as usize;
        term.ensure_row();
    } else if fin == 0x4a {
        if first0 == 0 {
            term.clear_screen_from_cursor();
        }
    } else if fin == 0x4b {
        if first0 == 0 {
            term.clear_line_from_cursor();
        } else if first0 == 1 {
            term.clear_line_to_cursor();
        } else if first0 == 2 {
            term.clear_line();
        }
    }
    proof {
        lemma_ensure_row(v);
        lemma_ensure_row(TermView { row: v.row + (n as nat), ..v });
        lemma_ensure_row(TermView { row: sat_sub(first1 as nat, 1), col: sat_sub(second1 as nat, 1), ..v });
        assert(term@ == csi_apply(v, fin, params@));
    }
    e + 1
}

/// Applies the escape sequence that starts with the ESC at `i`
/// and returns where the input continues.
pub fn apply_escape(bytes: &[u8], i: usize, term: &mut TextTerminal) -> (r: usize)
    requires
        i < bytes@.len(),
        render_fits(bytes@.len() as int),
        bounded(old(term)@, 65536 * i),
    ensures
        (r as int, final(term)@) == escape_step(bytes@, i as int, old(term)@),
        i < r <= bytes@.len(),
        bounded(final(term)@, 65536 * r),
        old(term)@.row < old(term)@.rows.len() ==> final(term)@.row < final(term)@.rows.len(),
{
    let ghost v = term@;
    proof {
        if v.row < v.rows.len() {
            lemma_escape_step_progress(bytes@, i as int, v);
        }
    }
    let j = i + 1;
    if j >= bytes.len() {
        return j;
    }
    let c = bytes[j];
    if c == 0x5d {
        return skip_osc(bytes, j + 1);
    }
    if c == 0x37 {
        term.saved = Some((term.row, term.col));
        return j + 1;
    }
    if c == 0x38 {
        match term.saved {
            Some((r, cl)) => {
                term.row = r;
                term.col = cl;
                term.ensure_row();
                proof {
                    lemma_ensure_row(TermView { row: r as nat, col: cl as nat, ..v });
                }
            },
            None => {},
        }
        return j + 1;
    }
    if c == 0x5b {
        return apply_csi(bytes, j + 1, term);
    }
    j + 1
}

/// The text that terminal output leaves on screen.
/// Inputs are limited so that no cursor position can overflow a `usize`.
pub fn render_terminal_text(bytes: &[u8]) -> (r: String)
    requires
        render_fits(bytes@.len() as int),
    ensures
        r@ == rendered(bytes@),
{
    let n = bytes.len();
    let mut term = TextTerminal::new();
    let mut i: usize = 0;
    while i < n
        invariant
            n == bytes@.len(),
            render_fits(n as int),
            i <= n,
            render_run(bytes@, 0, initial_term()) == render_run(bytes@, i as int, term@),
            bounded(term@, 65536 * i),
        decreases n - i,
    {
        let ghost v = term@;
        let ghost i0 = i as int;
        let b = bytes[i];
        if b == 0x0d {
            term.col = 0;
            i = i + 1;
        } else if b == 0x0a {
            term.newline();
            proof {
                lemma_ensure_row(TermView { row: v.row + 1, col: 0, ..v });
            }
            i = i + 1;
        } else if b == 0x08 {
            term.col = if term.col > 0 {
                term.col - 1
            } else {
                0
            };
            i = i + 1;
        } else if b == 0x09 {
            let spaces = 8 - (term.col % 8);
            let mut k: usize = 0;
            while k < spaces
                invariant
                    spaces <= 8,
                    k <= spaces,
                    v.col + spaces <= 65536 * i0 + 8,
                    render_fits(n as int),
                    i0 < n,
                    term@ == put_n(v, ' ', k as nat),
                    bounded(v, 65536 * i0),
                decreases spaces - k,
            {
                proof {
                    lemma_put_n(v, ' ', k as nat);
                }
                term.put(' ');
                k = k + 1;
            }
            proof {
                lemma_put_n(v, ' ', spaces as nat);
            }
            i = i + 1;
        } else if b == 0x1b {
            i = apply_escape(bytes, i, &mut term);
        } else if b >= 0x20 {
            let m = first_scalar_len(bytes, i);
            if m > 0 {
                let u = first_scalar_value(bytes, i);
                proof {
                    lemma_valid_first_is_scalar(suffix(bytes@, i0));
                }
                let c = scalar_char(u);
                term.put(c);
                i = i + m;
            } else {
                let c = crate::text::byte_char(b);
                proof {
                    char_u32_cast(c, b as u32);
                }
                term.put(c);
                i = i + 1;
            }
            proof {
                lemma_ensure_row(v);
            }
        } else {
            i = i + 1;
        }
        proof {
            assert(render_step(bytes@, i0, v) == (i as int, term@));
        }
    }
    term.finish()
}

// ---------------------------------------------------------------------------
// Rendered text has no control characters
// ---------------------------------------------------------------------------

/// A character that is not a control character below the space.
pub open spec fn printable(c: char) -> bool {
    c as u32 >= 0x20
}

pub open spec fn rows_printable(rows: Seq<Seq<char>>) -> bool {
    forall|r: int, k: int| 0 <= r < rows.len() && 0 <= k < rows[r].len() ==> printable(#[trigger] rows[r][k])
}

proof fn lemma_ensure_row_printable(v: TermView)
    requires
        rows_printable(v.rows),
    ensures
        rows_printable(ensure_row(v).rows),
{
    let w = ensure_row(v);
    assert forall|r: int, k: int| 0 <= r < w.rows.len() && 0 <= k < w.rows[r].len() implies printable(#[trigger] w.rows[r][k]) by {
        if r >= v.rows.len() {
            assert(w.rows[r] == Seq::<char>::empty());
        }
    }
}

proof fn lemma_put_printable(v: TermView, ch: char)
    requires
        rows_printable(v.rows),
        printable(ch),
    ensures
        rows_printable(put(v, ch).rows),
{
    let w = ensure_row(v);
    lemma_ensure_row_printable(v);
    lemma_ensure_row(v);
    let line = w.rows[w.row as int];
    let padded = if w.col > line.len() {
        line + spaces((w.col - line.len()) as nat)
    } else {
        line
    };
    assert forall|k: int| 0 <= k < padded.len() implies printable(#[trigger] padded[k]) by {
        if k >= line.len() {
            assert(padded[k] == ' ');
        } else {
            assert(padded[k] == line[k]);
        }
    }
    let nl = put_line(line, w.col, ch);
    assert forall|k: int| 0 <= k < nl.len() implies printable(#[trigger] nl[k]) by {
        if k == w.col {
        } else {
            assert(nl[k] == padded[k]);
        }
    }
    let rows = put(v, ch).rows;
    assert forall|r: int, k: int| 0 <= r < rows.len() && 0 <= k < rows[r].len() implies printable(#[trigger] rows[r][k]) by {
        if r == w.row {
            assert(rows[r] == nl);
        } else {
            assert(rows[r] == w.rows[r]);
        }
    }
}

proof fn lemma_put_n_printable(v: TermView, ch: char, n: nat)
    requires
        rows_printable(v.rows),
        printable(ch),
    ensures
        rows_printable(put_n(v, ch, n).rows),
    decreases n,
{
    if n > 0 {
        lemma_put_n_printable(v, ch, (n - 1) as nat);
        lemma_put_printable(put_n(v, ch, (n - 1) as nat), ch);
    }
}

proof fn lemma_set_row_printable(v: TermView, line: Seq<char>)
    requires
        v.row < v.rows.len(),
        rows_printable(v.rows),
        forall|k: int| 0 <= k < line.len() ==> printable(#[trigger] line[k]),
    ensures
        rows_printable(set_row(v, line).rows),
{
    let rows = set_row(v, line).rows;
    assert forall|r: int, k: int| 0 <= r < rows.len() && 0 <= k < rows[r].len() implies printable(#[trigger] rows[r][k]) by {
        if r == v.row {
            assert(rows[r] == line);
        } else {
            assert(rows[r] == v.rows[r]);
        }
    }
}

proof fn lemma_csi_printable(v: TermView, fin: u8, params: Seq<u16>)
    requires
        rows_printable(v.rows),
    ensures
        rows_printable(csi_apply(v, fin, params).rows),
{
    lemma_ensure_row_printable(v);
    let w = ensure_row(v);
    lemma_ensure_row(v);
    let line = w.rows[w.row as int];
    assert forall|k: int| 0 <= k < line.len() implies printable(#[trigger] line[k]) by {}
    let cut = line.take(min_nat(w.col, line.len()) as int);
    assert forall|k: int| 0 <= k < cut.len() implies printable(#[trigger] cut[k]) by {
        assert(cut[k] == line[k]);
    }
    lemma_set_row_printable(w, cut);
    let end = min_nat(w.col, line.len());
    let blanked = Seq::new(line.len(), |k: int| if k < end { ' ' } else { line[k] });
    assert forall|k: int| 0 <= k < blanked.len() implies printable(#[trigger] blanked[k]) by {}
    lemma_set_row_printable(w, blanked);
    lemma_set_row_printable(w, seq![]);
    let cl = clear_line_from_cursor(v);
    let taken = cl.rows.take(min_nat(cl.row + 1, cl.rows.len()) as int);
    assert forall|r: int, k: int| 0 <= r < taken.len() && 0 <= k < taken[r].len() implies printable(#[trigger] taken[r][k]) by {
        assert(taken[r] == cl.rows[r]);
    }
    let n: nat = 1;
    lemma_ensure_row_printable(TermView { row: v.row + n, ..v });
}

proof fn lemma_first_scalar_printable(rest: Seq<u8>)
    requires
        rest.len() > 0,
        valid_first_scalar(rest),
        rest[0] >= 0x20,
    ensures
        (decode_first_scalar(rest) as char) as u32 >= 0x20,
{
    lemma_valid_first_is_scalar(rest);
    let u = decode_first_scalar(rest);
    let b0 = rest[0];
    if b0 <= 0x7f {
        assert(u == (b0 & 0x7f) as u32);
        assert((b0 & 0x7f) as u32 == b0 as u32) by (bit_vector)
            requires
                b0 <= 0x7f,
        ;
    }
}

proof fn lemma_render_step_printable(b: Seq<u8>, i: int, v: TermView)
    requires
        0 <= i < b.len(),
        rows_printable(v.rows),
    ensures
        rows_printable(render_step(b, i, v).1.rows),
{
    let c = b[i];
    if c == 0x0a {
        lemma_ensure_row_printable(TermView { row: v.row + 1, col: 0, ..v });
    } else if c == 0x09 {
        lemma_put_n_printable(v, ' ', (8 - v.col % 8) as nat);
    } else if c == 0x1b {
        let j = i + 1;
        if j < b.len() {
            if b[j] == 0x38 {
                if let Some(p) = v.saved {
                    lemma_ensure_row_printable(TermView { row: p.0, col: p.1, ..v });
                }
            } else if b[j] == 0x5b {
                let e = csi_end(b, j + 1);
                if e < b.len() {
                    lemma_csi_printable(v, b[e], csi_params(b.subrange(j + 1, e)));
                }
            }
        }
    } else if c >= 0x20 && c != 0x0d && c != 0x08 {
        let rest = suffix(b, i);
        if valid_first_scalar(rest) {
            assert(rest[0] == c);
            lemma_first_scalar_printable(rest);
            lemma_put_printable(v, decode_first_scalar(rest) as char);
        } else {
            lemma_put_printable(v, (c as u32) as char);
        }
    }
}

proof fn lemma_render_run_printable(b: Seq<u8>, i: int, v: TermView)
    requires
        rows_printable(v.rows),
    ensures
        rows_printable(render_run(b, i, v).rows),
    decreases b.len() - i,
{
    if 0 <= i < b.len() {
        lemma_render_step_printable(b, i, v);
        let (j, w) = render_step(b, i, v);
        if i < j <= b.len() {
            lemma_render_run_printable(b, j, w);
        }
    }
}

proof fn lemma_join_printable(ls: Seq<Seq<char>>)
    requires
        rows_printable(ls),
    ensures
        forall|i: int| 0 <= i < join_lines(ls).len() ==> join_lines(ls)[i] == '\n' || printable(#[trigger] join_lines(ls)[i]),
    decreases ls.len(),
{
    if ls.len() > 1 {
        let d = ls.drop_last();
        assert forall|r: int, k: int| 0 <= r < d.len() && 0 <= k < d[r].len() implies printable(#[trigger] d[r][k]) by {
            assert(d[r] == ls[r]);
        }
        lemma_join_printable(d);
        let j = join_lines(ls);
        let a = join_lines(d);
        let last = ls.last();
        assert forall|i: int| 0 <= i < j.len() implies j[i] == '\n' || printable(#[trigger] j[i]) by {
            if i < a.len() {
                assert(j[i] == a[i]);
            } else if i > a.len() {
                assert(j[i] == last[i - a.len() - 1]);
                assert(ls[ls.len() - 1] == last);
            }
        }
    } else if ls.len() == 1 {
        assert forall|i: int| 0 <= i < join_lines(ls).len() implies join_lines(ls)[i] == '\n' || printable(#[trigger] join_lines(ls)[i]) by {
            assert(join_lines(ls) == ls[0]);
        }
    }
}

proof fn lemma_osc_end_bound(b: Seq<u8>, k: int)
    requires
        0 <= k <= b.len(),
    ensures
        k <= osc_end(b, k) <= b.len(),
    decreases b.len() - k,
{
    if k < b.len() && b[k] != 0x07 && !(b[k] == 0x1b && k + 1 < b.len() && b[k + 1] == 0x5c) {
        lemma_osc_end_bound(b, k + 1);
    }
}

proof fn lemma_csi_end_bound(b: Seq<u8>, k: int)
    requires
        0 <= k <= b.len(),
    ensures
        k <= csi_end(b, k) <= b.len(),
    decreases b.len() - k,
{
    if k < b.len() && !(0x40 <= b[k] && b[k] <= 0x7e) {
        lemma_csi_end_bound(b, k + 1);
    }
}

proof fn lemma_csi_apply_row(v: TermView, fin: u8, params: Seq<u16>)
    requires
        v.row < v.rows.len(),
    ensures
        csi_apply(v, fin, params).row < csi_apply(v, fin, params).rows.len(),
{
    lemma_ensure_row(v);
    let n: nat = 1;
    lemma_ensure_row(TermView { row: v.row + n, ..v });
    let cl = clear_line_from_cursor(v);
    assert(cl.rows.len() == v.rows.len());
    assert(cl.row == v.row);
}

/// Law: an escape sequence (whose ESC is at `i`) always consumes input,
/// never reads past its end, and leaves the cursor on an existing row.
pub proof fn lemma_escape_step_progress(b: Seq<u8>, i: int, v: TermView)
    requires
        0 <= i < b.len(),
        v.row < v.rows.len(),
    ensures
        i < escape_step(b, i, v).0 <= b.len(),
        escape_step(b, i, v).1.row < escape_step(b, i, v).1.rows.len(),
{
    let j = i + 1;
    lemma_ensure_row(v);
    if j < b.len() {
        if b[j] == 0x5d {
            lemma_osc_end_bound(b, j + 1);
        } else if b[j] == 0x38 {
            if let Some(p) = v.saved {
                lemma_ensure_row(TermView { row: p.0, col: p.1, ..v });
            }
        } else if b[j] == 0x5b {
            lemma_csi_end_bound(b, j + 1);
            let e = csi_end(b, j + 1);
            if e < b.len() {
                lemma_csi_apply_row(v, b[e], csi_params(b.subrange(j + 1, e)));
            }
        }
    }
}

/// Bytes that are printable ASCII characters.
pub open spec fn ascii_text(b: Seq<u8>) -> bool {
    forall|i: int| 0 <= i < b.len() ==> 0x20 <= #[trigger] b[i] <= 0x7e
}

proof fn lemma_ascii_first(rest: Seq<u8>)
    requires
        rest.len() > 0,
        rest[0] <= 0x7f,
    ensures
        valid_first_scalar(rest),
        length_of_first_scalar(rest) == 1,
        decode_first_scalar(rest) == rest[0] as u32,
{
    let b0 = rest[0];
    assert((b0 & 0x7f) as u32 == b0 as u32) by (bit_vector)
        requires
            b0 <= 0x7f,
    ;
}

/// Printable ASCII written at the end of the cursor's row is appended to it.
proof fn lemma_run_ascii(b: Seq<u8>, i: int, j: int, v: TermView)
    requires
        0 <= i <= j <= b.len(),
        forall|k: int| i <= k < j ==> 0x20 <= #[trigger] b[k] <= 0x7e,
        v.row < v.rows.len(),
        v.col == v.rows[v.row as int].len(),
    ensures
        render_run(b, i, v) == render_run(
            b,
            j,
            TermView {
                rows: v.rows.update(v.row as int, v.rows[v.row as int] + byte_chars(b.subrange(i, j))),
                col: v.col + (j - i) as nat,
                ..v
            },
        ),
    decreases j - i,
{
    let line = v.rows[v.row as int];
    if i == j {
        assert(byte_chars(b.subrange(i, j)) =~= Seq::<char>::empty());
        assert(line + Seq::<char>::empty() =~= line);
        assert(v.rows.update(v.row as int, line) =~= v.rows);
    } else {
        let c = b[i];
        lemma_ascii_first(suffix(b, i));
        let ch = (c as u32) as char;
        assert(render_step(b, i, v) == (i + 1, put(v, ch)));
        let w = put(v, ch);
        assert(put_line(line, v.col, ch) == line.push(ch));
        assert(w == TermView { rows: v.rows.update(v.row as int, line.push(ch)), col: v.col + 1, ..v });
        assert(render_run(b, i, v) == render_run(b, i + 1, w));
        lemma_run_ascii(b, i + 1, j, w);
        assert(line.push(ch) + byte_chars(b.subrange(i + 1, j)) =~= line + byte_chars(b.subrange(i, j)));
        assert(w.rows.update(v.row as int, line.push(ch) + byte_chars(b.subrange(i + 1, j))) =~= v.rows.update(
            v.row as int,
            line + byte_chars(b.subrange(i, j)),
        ));
    }
}

/// `line` with `w` written over it from column `col` (`col` within the line).
pub open spec fn overwritten(line: Seq<char>, col: int, w: Seq<char>) -> Seq<char> {
    let e = if col + w.len() < line.len() {
        col + w.len()
    } else {
        line.len() as int
    };
    line.subrange(0, col) + w + line.subrange(e, line.len() as int)
}

/// Printable ASCII written at a column inside the cursor's row overwrites
/// the row from there on and lengthens it where it runs past its end.
proof fn lemma_run_ascii_over(b: Seq<u8>, i: int, j: int, v: TermView)
    requires
        0 <= i <= j <= b.len(),
        forall|k: int| i <= k < j ==> 0x20 <= #[trigger] b[k] <= 0x7e,
        v.row < v.rows.len(),
        v.col <= v.rows[v.row as int].len(),
    ensures
        render_run(b, i, v) == render_run(
            b,
            j,
            TermView {
                rows: v.rows.update(
                    v.row as int,
                    overwritten(v.rows[v.row as int], v.col as int, byte_chars(b.subrange(i, j))),
                ),
                col: v.col + (j - i) as nat,
                ..v
            },
        ),
    decreases j - i,
{
    let line = v.rows[v.row as int];
    let col = v.col as int;
    if i == j {
        assert(overwritten(line, col, byte_chars(b.subrange(i, j))) =~= line);
        assert(v.rows.update(v.row as int, line) =~= v.rows);
    } else {
        let c = b[i];
        lemma_ascii_first(suffix(b, i));
        let ch = (c as u32) as char;
        assert(render_step(b, i, v) == (i + 1, put(v, ch)));
        let w = put(v, ch);
        let l1 = put_line(line, v.col, ch);
        assert(l1 =~= overwritten(line, col, seq![ch]));
        assert(w == TermView { rows: v.rows.update(v.row as int, l1), col: v.col + 1, ..v });
        assert(render_run(b, i, v) == render_run(b, i + 1, w));
        lemma_run_ascii_over(b, i + 1, j, w);
        let rest = byte_chars(b.subrange(i + 1, j));
        assert(byte_chars(b.subrange(i, j)) =~= seq![ch] + rest);
        assert(overwritten(l1, col + 1, rest) =~= overwritten(line, col, seq![ch] + rest));
        assert(w.rows.update(v.row as int, overwritten(l1, col + 1, rest)) =~= v.rows.update(
            v.row as int,
            overwritten(line, col, byte_chars(b.subrange(i, j))),
        ));
    }
}

/// Law: a carriage return sends the cursor back to the start of the line,
/// so the text written after it replaces the old text from the left (as a
/// progress line is redrawn), and what the new text does not reach stays.
pub proof fn lemma_carriage_return_overwrites(s: Seq<u8>, u: Seq<u8>)
    requires
        ascii_text(s),
        ascii_text(u),
    ensures
        rendered(s + seq![0x0du8] + u) == trim_end(
            if u.len() < s.len() {
                byte_chars(u) + byte_chars(s).subrange(u.len() as int, s.len() as int)
            } else {
                byte_chars(u)
            },
        ),
{
    let b = s + seq![0x0du8] + u;
    let m = s.len() as int;
    let n = b.len() as int;
    assert(forall|k: int| 0 <= k < m ==> b[k] == s[k]);
    assert(forall|k: int| m + 1 <= k < n ==> b[k] == u[k - m - 1]);
    assert(b[m] == 0x0d);
    let v0 = initial_term();
    lemma_run_ascii(b, 0, m, v0);
    assert(b.subrange(0, m) =~= s);
    let line = seq![] + byte_chars(s);
    assert(line =~= byte_chars(s));
    let v1 = TermView { rows: v0.rows.update(0, line), col: m as nat, ..v0 };
    assert(render_run(b, 0, v0) == render_run(b, m, v1));
    let v2 = TermView { col: 0, ..v1 };
    assert(render_step(b, m, v1) == (m + 1, v2));
    assert(render_run(b, m, v1) == render_run(b, m + 1, v2));
    lemma_run_ascii_over(b, m + 1, n, v2);
    assert(b.subrange(m + 1, n) =~= u);
    let out = overwritten(byte_chars(s), 0, byte_chars(u));
    let v3 = TermView { rows: v2.rows.update(0, out), col: u.len(), ..v2 };
    assert(render_run(b, m + 1, v2) == render_run(b, n, v3));
    assert(render_run(b, n, v3) == v3);
    assert(v3.rows =~= seq![out]);
    assert(out =~= (if u.len() < s.len() {
        byte_chars(u) + byte_chars(s).subrange(u.len() as int, s.len() as int)
    } else {
        byte_chars(u)
    }));
    assert(v3.rows.map_values(|r: Seq<char>| trim_end(r)) =~= seq![trim_end(out)]);
}

/// Law: a backspace moves the cursor one column left (it erases nothing by
/// itself), so the text written next replaces the last character.
pub proof fn lemma_backspace_replaces(s: Seq<u8>, u: Seq<u8>)
    requires
        ascii_text(s),
        ascii_text(u),
        s.len() > 0,
        u.len() > 0,
    ensures
        rendered(s + seq![0x08u8] + u) == trim_end(
            byte_chars(s).subrange(0, s.len() - 1) + byte_chars(u),
        ),
{
    let b = s + seq![0x08u8] + u;
    let m = s.len() as int;
    let n = b.len() as int;
    assert(forall|k: int| 0 <= k < m ==> b[k] == s[k]);
    assert(forall|k: int| m + 1 <= k < n ==> b[k] == u[k - m - 1]);
    assert(b[m] == 0x08);
    let v0 = initial_term();
    lemma_run_ascii(b, 0, m, v0);
    assert(b.subrange(0, m) =~= s);
    let line = seq![] + byte_chars(s);
    assert(line =~= byte_chars(s));
    let v1 = TermView { rows: v0.rows.update(0, line), col: m as nat, ..v0 };
    assert(render_run(b, 0, v0) == render_run(b, m, v1));
    let v2 = TermView { col: (m - 1) as nat, ..v1 };
    assert(render_step(b, m, v1) == (m + 1, v2));
    assert(render_run(b, m, v1) == render_run(b, m + 1, v2));
    lemma_run_ascii_over(b, m + 1, n, v2);
    assert(b.subrange(m + 1, n) =~= u);
    let out = overwritten(byte_chars(s), m - 1, byte_chars(u));
    let v3 = TermView { rows: v2.rows.update(0, out), col: (m - 1 + u.len()) as nat, ..v2 };
    assert(render_run(b, m + 1, v2) == render_run(b, n, v3));
    assert(render_run(b, n, v3) == v3);
    assert(v3.rows =~= seq![out]);
    assert(out =~= byte_chars(s).subrange(0, m - 1) + byte_chars(u));
    assert(v3.rows.map_values(|r: Seq<char>| trim_end(r)) =~= seq![trim_end(out)]);
}

/// Law: erase-in-line with parameter 2 empties the cursor's row and leaves
/// the cursor where it is.
pub proof fn lemma_erase_whole_line(v: TermView, params: Seq<u16>)
    requires
        params.len() > 0,
        params[0] == 2,
    ensures
        csi_apply(v, 0x4b, params).row == v.row,
        csi_apply(v, 0x4b, params).row < csi_apply(v, 0x4b, params).rows.len(),
        csi_apply(v, 0x4b, params).rows[v.row as int] == Seq::<char>::empty(),
{
    lemma_ensure_row(v);
}

/// Law: printable text, a carriage return and `ESC [ 2 K` leave nothing of
/// that text: what is written next is all the screen shows.
pub proof fn lemma_erased_progress_line(s: Seq<u8>, u: Seq<u8>)
    requires
        ascii_text(s),
        ascii_text(u),
    ensures
        rendered(s + seq![0x0du8, 0x1bu8, 0x5bu8, 0x32u8, 0x4bu8] + u) == trim_end(byte_chars(u)),
{
    let mid = seq![0x0du8, 0x1bu8, 0x5bu8, 0x32u8, 0x4bu8];
    let b = s + mid + u;
    let m = s.len() as int;
    let n = b.len() as int;
    assert(forall|k: int| 0 <= k < m ==> b[k] == s[k]);
    assert(forall|k: int| m + 5 <= k < n ==> b[k] == u[k - m - 5]);
    assert(b[m] == 0x0d && b[m + 1] == 0x1b && b[m + 2] == 0x5b && b[m + 3] == 0x32 && b[m + 4] == 0x4b);
    let v0 = initial_term();
    lemma_run_ascii(b, 0, m, v0);
    assert(b.subrange(0, m) =~= s);
    let v1 = TermView { rows: v0.rows.update(0, seq![] + byte_chars(s)), col: m as nat, ..v0 };
    assert(render_run(b, 0, v0) == render_run(b, m, v1));
    let v2 = TermView { col: 0, ..v1 };
    assert(render_step(b, m, v1) == (m + 1, v2));
    assert(render_run(b, m, v1) == render_run(b, m + 1, v2));
    assert(csi_end(b, m + 4) == m + 4);
    assert(csi_end(b, m + 3) == m + 4);
    let p = b.subrange(m + 3, m + 4);
    assert(p =~= seq![0x32u8]);
    assert(strip_questions(p) == p);
    assert(find_byte_from(p, 0x3b, 1) is None);
    assert(find_byte_from(p, 0x3b, 0) is None);
    assert(p.subrange(0, 1) =~= p);
    crate::text::lemma_decimal_parses(2, 65535);
    assert(byte_chars(p) =~= crate::text::decimal(2));
    assert(csi_params(p) == seq![2u16]);
    let v3 = csi_apply(v2, 0x4b, seq![2u16]);
    assert(escape_step(b, m + 1, v2) == (m + 5, v3));
    assert(render_step(b, m + 1, v2) == (m + 5, v3));
    assert(render_run(b, m + 1, v2) == render_run(b, m + 5, v3));
    assert(v2.rows.len() == 1 && v2.row == 0);
    assert(ensure_row(v2) == v2);
    assert(v3 == clear_line(v2));
    assert(v3.rows =~= seq![Seq::<char>::empty()]);
    assert(v3 == TermView { rows: seq![Seq::<char>::empty()], row: 0, col: 0, saved: None });
    lemma_run_ascii(b, m + 5, n, v3);
    assert(b.subrange(m + 5, n) =~= u);
    let v4 = TermView { rows: seq![Seq::<char>::empty()].update(0, seq![] + byte_chars(u)), col: u.len(), ..v3 };
    assert(render_run(b, m + 5, v3) == render_run(b, n, v4));
    assert(render_run(b, n, v4) == v4);
    assert(v4.rows =~= seq![byte_chars(u)]);
    assert(v4.rows.map_values(|r: Seq<char>| trim_end(r)) =~= seq![trim_end(byte_chars(u))]);
}

/// Law: rendered text holds no escape or other control character; only
/// line breaks separate its lines ("no colors").
pub proof fn lemma_rendered_is_plain(b: Seq<u8>)
    ensures
        forall|i: int| 0 <= i < rendered(b).len() ==> rendered(b)[i] == '\n' || printable(#[trigger] rendered(b)[i]),
{
    let t0 = initial_term();
    assert forall|r: int, k: int| 0 <= r < t0.rows.len() && 0 <= k < t0.rows[r].len() implies printable(#[trigger] t0.rows[r][k]) by {
        assert(t0.rows[r] == Seq::<char>::empty());
    }
    lemma_render_run_printable(b, 0, t0);
    let v = render_run(b, 0, t0);
    let trimmed = v.rows.map_values(|r: Seq<char>| trim_end(r));
    assert forall|r: int, k: int| 0 <= r < trimmed.len() && 0 <= k < trimmed[r].len() implies printable(#[trigger] trimmed[r][k]) by {
        crate::text::lemma_trim_end_is_prefix(v.rows[r]);
        assert(trimmed[r] == trim_end(v.rows[r]));
        assert(trimmed[r][k] == v.rows[r][k]);
    }
    lemma_join_printable(trimmed);
}

} // verus!
