//! Shell integration, agent-skill and update-check logic.
//!
//! Shell rc files get a block between `# >>> hitch ... >>>` and
//! `# <<< hitch ... <<<` markers; [`upsert_marked_block_before`] replaces such
//! a block in place or inserts a new one. Versions are compared by their
//! numeric parts.
use vstd::prelude::*;
use crate::error::{ErrorKind, HitchError};
use crate::paths::{join, path_join, file_name, file_name_of};
use crate::text::{
    blank, chars_eq, chars_of, contains, find, find_char, find_char_from, find_chars,
    find_chars_from, find_from, is_blank, join_lines, lemma_find_char_from_props,
    lemma_find_from_props, lemma_trim_empty_iff_blank, lines, lines_of, parse_u64, parse_unsigned,
    lemma_trim_end_is_prefix, push_all, slice_chars, starts_with, str_is, string_of, trim,
    trim_bounds, trim_end, trim_end_len, trimmed,
};

verus! {

pub const SHELL_START: &'static str = "# >>> hitch shell integration >>>";

pub const SHELL_END: &'static str = "# <<< hitch shell integration <<<";

pub const PROMPT_START: &'static str = "# >>> hitch prompt integration >>>";

pub const PROMPT_END: &'static str = "# <<< hitch prompt integration <<<";

// ---------------------------------------------------------------------------
// Marked blocks
// ---------------------------------------------------------------------------

/// The index of the last `c` in `s`.
pub open spec fn rfind_char(s: Seq<char>, c: char) -> Option<int>
    decreases s.len(),
{
    if s.len() == 0 {
        None
    } else if s.last() == c {
        Some(s.len() - 1)
    } else {
        rfind_char(s.drop_last(), c)
    }
}

pub proof fn lemma_rfind_char(s: Seq<char>, c: char)
    ensures
        rfind_char(s, c) matches Some(k) ==> 0 <= k < s.len() && s[k] == c && forall|j: int|
            k < j < s.len() ==> s[j] != c,
        rfind_char(s, c) is None ==> forall|j: int| 0 <= j < s.len() ==> s[j] != c,
    decreases s.len(),
{
    if s.len() > 0 && s.last() != c {
        lemma_rfind_char(s.drop_last(), c);
        assert forall|j: int| 0 <= j < s.len() - 1 implies s[j] == s.drop_last()[j] by {}
    }
}

fn rfind_char_exec(s: &[char], end: usize, c: char) -> (r: Option<usize>)
    requires
        end <= s@.len(),
    ensures
        r matches Some(k) ==> rfind_char(s@.subrange(0, end as int), c) == Some(k as int),
        r is None ==> rfind_char(s@.subrange(0, end as int), c) is None,
{
    let mut k = end;
    while k > 0
        invariant
            k <= end <= s@.len(),
            rfind_char(s@.subrange(0, end as int), c) == rfind_char(s@.subrange(0, k as int), c),
        decreases k,
    {
        let ghost p = s@.subrange(0, k as int);
        proof {
            assert(p.last() == s@[k - 1]);
            assert(p.drop_last() == s@.subrange(0, k - 1));
        }
        if s[k - 1] == c {
            return Some(k - 1);
        }
        k = k - 1;
    }
    None
}

/// A block between `start_marker` and the first `end_marker` after it,
/// replaced by `block` (trailing whitespace trimmed); the replacement starts at
/// the beginning of the marker's line when only whitespace precedes it there.
pub open spec fn replace_marked(
    raw: Seq<char>,
    block: Seq<char>,
    start_marker: Seq<char>,
    end_marker: Seq<char>,
) -> Option<Seq<char>> {
    match find(raw, start_marker) {
        None => None,
        Some(start) => match find(raw.subrange(start, raw.len() as int), end_marker) {
            None => None,
            Some(end_rel) => {
                let line_start = match rfind_char(raw.subrange(0, start), '\n') {
                    Some(p) => p + 1,
                    None => 0,
                };
                let replace_start = if is_blank(raw.subrange(line_start, start)) {
                    line_start
                } else {
                    start
                };
                let end = start + end_rel + end_marker.len();
                Some(raw.subrange(0, replace_start) + trim_end(block) + raw.subrange(
                    end,
                    raw.len() as int,
                ))
            },
        },
    }
}

pub open spec fn nl2() -> Seq<char> {
    seq!['\n', '\n']
}

/// `raw` with `block` put in: in place of an existing hitch block (shell
/// markers first, then the older prompt markers); else before the first
/// occurrence of a non-empty `anchor`, set off by blank lines; else at the end
/// after a blank line, with a final newline.
pub open spec fn upserted(raw: Seq<char>, block: Seq<char>, anchor: Seq<char>) -> Seq<char> {
    match replace_marked(raw, block, SHELL_START@, SHELL_END@) {
        Some(out) => out,
        None => match replace_marked(raw, block, PROMPT_START@, PROMPT_END@) {
            Some(out) => out,
            None => if anchor.len() > 0 && find(raw, anchor) is Some {
                let idx = find(raw, anchor)->0;
                trim_end(raw.subrange(0, idx)) + nl2() + trim_end(block) + nl2() + raw.subrange(
                    idx,
                    raw.len() as int,
                )
            } else {
                let t = trim_end(raw);
                (if t.len() > 0 {
                    t + nl2()
                } else {
                    t
                }) + trim_end(block) + seq!['\n']
            },
        },
    }
}

/// Whether `raw` holds the start marker of a hitch block.
pub open spec fn has_marked_block(raw: Seq<char>) -> bool {
    contains(raw, SHELL_START@) || contains(raw, PROMPT_START@)
}

fn replace_marked_exec(raw: &[char], block: &[char], start_marker: &str, end_marker: &str) -> (r:
    Option<Vec<char>>)
    ensures
        r matches Some(v) ==> replace_marked(raw@, block@, start_marker@, end_marker@) == Some(
            v@,
        ),
        r is None ==> replace_marked(raw@, block@, start_marker@, end_marker@) is None,
{
    let sm = chars_of(start_marker);
    let em = chars_of(end_marker);
    let start = match find_chars(raw, sm.as_slice()) {
        None => return None,
        Some(s) => s,
    };
    proof {
        lemma_find_from_props(raw@, sm@, 0);
    }
    let end_abs = match find_chars_from(raw, em.as_slice(), start) {
        None => {
            proof {
                lemma_find_shift(raw@, em@, start as int);
            }
            return None;
        },
        Some(e) => e,
    };
    proof {
        lemma_find_shift(raw@, em@, start as int);
        lemma_find_from_props(raw@, em@, start as int);
        assert(crate::text::occurs_at(raw@, em@, end_abs as int));
        assert(end_abs + em@.len() <= raw@.len());
    }
    proof {
        lemma_rfind_char(raw@.subrange(0, start as int), '\n');
        assert(crate::text::occurs_at(raw@, sm@, start as int));
    }
    let line_start = match rfind_char_exec(raw, start, '\n') {
        Some(p) => p + 1,
        None => 0,
    };
    let seg = slice_chars(raw, line_start, start);
    let replace_start = if blank(seg.as_slice()) {
        line_start
    } else {
        start
    };
    let rlen = raw.len();
    assert(end_abs + em@.len() <= rlen);
    let end = end_abs + em.len();
    let mut out = slice_chars(raw, 0, replace_start);
    let bl = trim_end_len(block);
    let bpart = slice_chars(block, 0, bl);
    push_all(&mut out, bpart.as_slice());
    let tail = slice_chars(raw, end, raw.len());
    push_all(&mut out, tail.as_slice());
    Some(out)
}

/// Searching `s[a..]` from its start finds what searching `s` from `a` finds,
/// shifted by `a`.
pub proof fn lemma_find_shift(s: Seq<char>, p: Seq<char>, a: int)
    requires
        0 <= a <= s.len(),
    ensures
        find(s.subrange(a, s.len() as int), p) == (match find_from(s, p, a) {
            Some(k) => Some(k - a),
            None => None,
        }),
{
    let r = s.subrange(a, s.len() as int);
    lemma_find_from_props(s, p, a);
    lemma_find_from_props(r, p, 0);
    assert forall|j: int| 0 <= j implies #[trigger] crate::text::occurs_at(r, p, j)
        == crate::text::occurs_at(s, p, j + a) by {
        if 0 <= j && j + p.len() <= r.len() {
            assert(r.subrange(j, j + p.len()) == s.subrange(j + a, j + a + p.len()));
        }
    }
    match find_from(s, p, a) {
        Some(k) => {
            assert(crate::text::occurs_at(r, p, k - a));
            match find(r, p) {
                Some(k2) => {
                    assert(crate::text::occurs_at(s, p, k2 + a));
                    if k2 < k - a {
                    }
                    if k2 > k - a {
                    }
                },
                None => {},
            }
        },
        None => {
            match find(r, p) {
                Some(k2) => {
                    assert(crate::text::occurs_at(s, p, k2 + a));
                },
                None => {},
            }
        },
    }
}

/// Puts `block` into `raw` (see [`upserted`]); `anchor` may be empty.
pub fn upsert_marked_block_before(raw: &str, block: &str, anchor: &str) -> (r: String)
    ensures
        r@ == upserted(raw@, block@, anchor@),
{
    let rc = chars_of(raw);
    let bc = chars_of(block);
    let ac = chars_of(anchor);
    if let Some(out) = replace_marked_exec(rc.as_slice(), bc.as_slice(), SHELL_START, SHELL_END) {
        return string_of(out.as_slice());
    }
    if let Some(out) = replace_marked_exec(rc.as_slice(), bc.as_slice(), PROMPT_START, PROMPT_END) {
        return string_of(out.as_slice());
    }
    let bl = trim_end_len(bc.as_slice());
    let bpart = slice_chars(bc.as_slice(), 0, bl);
    if ac.len() > 0 {
        if let Some(idx) = find_chars(rc.as_slice(), ac.as_slice()) {
            proof {
                lemma_find_from_props(rc@, ac@, 0);
                assert(crate::text::occurs_at(rc@, ac@, idx as int));
            }
            let k = trim_end_len(slice_chars(rc.as_slice(), 0, idx).as_slice());
            let mut out = slice_chars(rc.as_slice(), 0, k);
            proof {
                let pre = rc@.subrange(0, idx as int);
                assert(pre.subrange(0, k as int) == rc@.subrange(0, k as int));
            }
            out.push('\n');
            out.push('\n');
            push_all(&mut out, bpart.as_slice());
            out.push('\n');
            out.push('\n');
            let rest = slice_chars(rc.as_slice(), idx, rc.len());
            push_all(&mut out, rest.as_slice());
            return string_of(out.as_slice());
        }
    }
    let k = trim_end_len(rc.as_slice());
    let mut out = slice_chars(rc.as_slice(), 0, k);
    if k > 0 {
        out.push('\n');
        out.push('\n');
    }
    push_all(&mut out, bpart.as_slice());
    out.push('\n');
    string_of(out.as_slice())
}

/// Puts `block` into `raw` with no anchor.
pub fn upsert_marked_block(raw: &str, block: &str) -> (r: String)
    ensures
        r@ == upserted(raw@, block@, seq![]),
{
    proof {
        reveal_strlit("");
    }
    upsert_marked_block_before(raw, block, "")
}

/// Whether `raw` already holds a hitch block.
pub fn has_hitch_marked_block(raw: &str) -> (r: bool)
    ensures
        r == has_marked_block(raw@),
{
    let rc = chars_of(raw);
    let a = chars_of(SHELL_START);
    let b = chars_of(PROMPT_START);
    find_chars(rc.as_slice(), a.as_slice()).is_some() || find_chars(rc.as_slice(), b.as_slice()).is_some()
}


// ---------------------------------------------------------------------------
// The shell integration blocks
// ---------------------------------------------------------------------------

/// The Powerlevel10k segment that shows the terminal id.
pub const P10K_PROMPT_BLOCK: &'static str = "  # >>> hitch shell integration >>>
  function prompt_hitch() {
    [[ -n \"${HITCH_SESSION:-}\" ]] && p10k segment -f 2 -t \"#${HITCH_SESSION}\"
  }
  # <<< hitch shell integration <<<";

pub fn p10k_prompt_block() -> (r: &'static str)
    ensures
        r@ == P10K_PROMPT_BLOCK@,
{
    P10K_PROMPT_BLOCK
}

/// The zsh integration: prompt tag and the `hitch` wrapper function.
pub const ZSH_PROMPT_BLOCK: &'static str = "# >>> hitch shell integration >>>
function _hitch_prompt_segment() {
  [[ -n \"${HITCH_SESSION:-}\" ]] && print -n \"%F{2}#${HITCH_SESSION}%f \"
}

function _hitch_precmd() {
  [[ -n \"${POWERLEVEL9K_LEFT_PROMPT_ELEMENTS:-}\" ]] && return
  [[ -z \"${HITCH_SESSION:-}\" ]] && return
  local _hitch_prefix=\"%F{2}#${HITCH_SESSION}%f \"
  [[ \"$PROMPT\" == \"${_hitch_prefix}\"* ]] && return
  PROMPT=\"${_hitch_prefix}${PROMPT}\"
}

if [[ -z \"${HITCH_PROMPT_INSTALLED:-}\" && -z \"${POWERLEVEL9K_LEFT_PROMPT_ELEMENTS:-}\" ]]; then
  HITCH_PROMPT_INSTALLED=1
  autoload -Uz add-zsh-hook
  add-zsh-hook precmd _hitch_precmd
fi

function _hitch_run() {
    local _hitch_command=\"$1\"
    shift
    local _hitch_bin=\"${commands[$_hitch_command]:-}\"
    if [[ -z \"${_hitch_bin:-}\" ]]; then
      print -u2 \"$_hitch_command: command not found\"
      return 127
    fi
    if [[ -z \"${HITCH_SESSION:-}\" && ( \"$#\" -eq 0 || \"$1\" == \"on\" || \"$1\" == \"start\" ) ]]; then
      fc -W 2>/dev/null
    fi

    local _hitch_cwd_file=\"\"
    if [[ -z \"${HITCH_SESSION:-}\" ]]; then
      _hitch_cwd_file=\"${TMPDIR:-/tmp}/hitch-cwd-$$-$RANDOM\"
      HITCH_CWD_SYNC_FILE=\"$_hitch_cwd_file\" \"$_hitch_bin\" \"$@\"
    else
      \"$_hitch_bin\" \"$@\"
    fi
    local code=$?
    if [[ -n \"$_hitch_cwd_file\" && -s \"$_hitch_cwd_file\" ]]; then
      local _hitch_cwd
      _hitch_cwd=\"$(cat \"$_hitch_cwd_file\" 2>/dev/null)\"
      if [[ -d \"$_hitch_cwd\" ]]; then
        cd \"$_hitch_cwd\"
      fi
    fi
    [[ -n \"$_hitch_cwd_file\" ]] && rm -f \"$_hitch_cwd_file\"
    if [[ \"$code\" -eq 42 ]]; then
      exit
    fi
    return \"$code\"
}

function hitch() {
  _hitch_run hitch \"$@\"
}

alias unhitch='hitch off'

function hitch-dev() {
  _hitch_run hitch-dev \"$@\"
}
# <<< hitch shell integration <<<";

pub fn zsh_prompt_block() -> (r: &'static str)
    ensures
        r@ == ZSH_PROMPT_BLOCK@,
{
    ZSH_PROMPT_BLOCK
}

/// The bash integration: prompt tag and the `hitch` wrapper function.
pub const BASH_PROMPT_BLOCK: &'static str = "# >>> hitch shell integration >>>
_hitch_prompt_segment() {
  [[ -n \"${HITCH_SESSION:-}\" ]] && printf '#%s ' \"$HITCH_SESSION\"
}

_hitch_prompt_command() {
  [[ -z \"${HITCH_SESSION:-}\" ]] && return
  local _hitch_prefix=\"\\\\[\\\\033[32m\\\\]#${HITCH_SESSION} \\\\[\\\\033[0m\\\\]\"
  [[ \"$PS1\" == \"${_hitch_prefix}\"* ]] && return
  PS1=\"${_hitch_prefix}${PS1}\"
}

if [[ -z \"${HITCH_PROMPT_INSTALLED:-}\" ]]; then
  HITCH_PROMPT_INSTALLED=1
  if [[ -n \"${PROMPT_COMMAND:-}\" ]]; then
    PROMPT_COMMAND=\"${PROMPT_COMMAND%;}; _hitch_prompt_command\"
  else
    PROMPT_COMMAND=\"_hitch_prompt_command\"
  fi
fi

_hitch_run() {
    local _hitch_command=\"$1\"
    shift
    local _hitch_bin
    _hitch_bin=\"$(type -P \"$_hitch_command\" 2>/dev/null || true)\"
    if [[ -z \"${_hitch_bin:-}\" ]]; then
      printf '%s: command not found\\n' \"$_hitch_command\" >&2
      return 127
    fi
    if [[ -z \"${HITCH_SESSION:-}\" && ( \"$#\" -eq 0 || \"$1\" == \"on\" || \"$1\" == \"start\" ) ]]; then
      history -a 2>/dev/null
    fi

    local _hitch_cwd_file=\"\"
    if [[ -z \"${HITCH_SESSION:-}\" ]]; then
      _hitch_cwd_file=\"${TMPDIR:-/tmp}/hitch-cwd-$$-$RANDOM\"
      HITCH_CWD_SYNC_FILE=\"$_hitch_cwd_file\" \"$_hitch_bin\" \"$@\"
    else
      \"$_hitch_bin\" \"$@\"
    fi
    local code=$?
    if [[ -n \"$_hitch_cwd_file\" && -s \"$_hitch_cwd_file\" ]]; then
      local _hitch_cwd
      _hitch_cwd=\"$(cat \"$_hitch_cwd_file\" 2>/dev/null)\"
      if [[ -d \"$_hitch_cwd\" ]]; then
        cd \"$_hitch_cwd\"
      fi
    fi
    [[ -n \"$_hitch_cwd_file\" ]] && rm -f \"$_hitch_cwd_file\"
    if [[ \"$code\" -eq 42 ]]; then
      exit
    fi
    return \"$code\"
}

hitch() {
  _hitch_run hitch \"$@\"
}

alias unhitch='hitch off'

hitch-dev() {
  _hitch_run hitch-dev \"$@\"
}
# <<< hitch shell integration <<<";

pub fn bash_prompt_block() -> (r: &'static str)
    ensures
        r@ == BASH_PROMPT_BLOCK@,
{
    BASH_PROMPT_BLOCK
}

/// The fish integration: prompt tag and the `hitch` wrapper function.
pub const FISH_PROMPT_BLOCK: &'static str = "# >>> hitch shell integration >>>
if not functions -q __hitch_original_fish_prompt
    functions -c fish_prompt __hitch_original_fish_prompt
end

function fish_prompt
    if set -q HITCH_SESSION
        set_color green
        printf '#%s ' $HITCH_SESSION
        set_color normal
    end
    __hitch_original_fish_prompt
end

function __hitch_run
        set -l __hitch_command $argv[1]
        set -e argv[1]
        set -l __hitch_bin (command -s \"$__hitch_command\")
        if test -z \"$__hitch_bin\"
            printf '%s: command not found\\n' \"$__hitch_command\" >&2
            return 127
        end
        if not set -q HITCH_SESSION
            if test (count $argv) -eq 0; or test \"$argv[1]\" = on; or test \"$argv[1]\" = start
                history save 2>/dev/null
            end
        end

        set -l __hitch_cwd_file
        if not set -q HITCH_SESSION
            set __hitch_cwd_file (mktemp -t hitch-cwd.XXXXXX 2>/dev/null)
            if test -n \"$__hitch_cwd_file\"
                env HITCH_CWD_SYNC_FILE=\"$__hitch_cwd_file\" \"$__hitch_bin\" $argv
            else
                \"$__hitch_bin\" $argv
            end
        else
            \"$__hitch_bin\" $argv
        end
        set code $status
        if test -n \"$__hitch_cwd_file\"; and test -s \"$__hitch_cwd_file\"
            set -l __hitch_cwd (cat \"$__hitch_cwd_file\" 2>/dev/null)
            if test -d \"$__hitch_cwd\"
                cd \"$__hitch_cwd\"
            end
        end
        if test -n \"$__hitch_cwd_file\"
            rm -f \"$__hitch_cwd_file\"
        end
        if test $code -eq 42
            exit
        end
        return $code
end

function hitch
    __hitch_run hitch $argv
end

alias unhitch 'hitch off'

function hitch-dev
    __hitch_run hitch-dev $argv
end
# <<< hitch shell integration <<<";

pub fn fish_prompt_block() -> (r: &'static str)
    ensures
        r@ == FISH_PROMPT_BLOCK@,
{
    FISH_PROMPT_BLOCK
}

// ---------------------------------------------------------------------------
// Powerlevel10k
// ---------------------------------------------------------------------------

pub const P10K_LEFT_KEY: &'static str = "POWERLEVEL9K_LEFT_PROMPT_ELEMENTS=(";

pub const P10K_LEFT_CLOSE: &'static str = "\n  )";

pub const HITCH_SEGMENT_LINE: &'static str = "    hitch                   # hitch terminal id";

pub const HITCH_WORD: &'static str = "hitch";

pub const NEWLINE_WORD: &'static str = "newline";

pub const P10K_ANCHOR_SEGMENT: &'static str = "  # Example of a user-defined prompt segment.";

pub const P10K_ANCHOR_TRANSIENT: &'static str = "  # Transient prompt works similarly";

pub const P10K_ANCHOR_RELOAD: &'static str = "  # If p10k is already loaded, reload configuration.";

pub const P10K_NO_ELEMENTS: &'static str = "could not find POWERLEVEL9K_LEFT_PROMPT_ELEMENTS in ~/.p10k.zsh";

pub const P10K_BAD_ELEMENTS: &'static str = "could not parse POWERLEVEL9K_LEFT_PROMPT_ELEMENTS in ~/.p10k.zsh";

pub const P10K_NO_INSERTION_POINT: &'static str = "could not find a safe insertion point in ~/.p10k.zsh";

/// The code of a config line: the part before the first `#`.
pub open spec fn code_part(l: Seq<char>) -> Seq<char> {
    match find_char_from(l, '#', 0) {
        Some(k) => l.subrange(0, k),
        None => l,
    }
}

pub open spec fn names_segment(l: Seq<char>, word: Seq<char>) -> bool {
    trim(code_part(l)) == word
}

/// The lines that do not name the `hitch` segment, in order.
pub open spec fn without_hitch(ls: Seq<Seq<char>>) -> Seq<Seq<char>>
    decreases ls.len(),
{
    if ls.len() == 0 {
        seq![]
    } else {
        let r = without_hitch(ls.drop_last());
        if names_segment(ls.last(), HITCH_WORD@) {
            r
        } else {
            r.push(ls.last())
        }
    }
}

/// The index of the first line at or after `k` that names the `newline`
/// segment, or the number of lines.
pub open spec fn newline_index(ls: Seq<Seq<char>>, k: int) -> int
    decreases ls.len() - k,
{
    if k < 0 || k >= ls.len() {
        ls.len() as int
    } else if names_segment(ls[k], NEWLINE_WORD@) {
        k
    } else {
        newline_index(ls, k + 1)
    }
}

/// The prompt-elements block with exactly one `hitch` entry, placed before
/// the `newline` entry (or last).
pub open spec fn with_hitch_segment(block: Seq<char>) -> Seq<char> {
    let kept = without_hitch(lines(block));
    join_lines(kept.insert(newline_index(kept, 0), HITCH_SEGMENT_LINE@))
}

proof fn lemma_newline_index_first(ls: Seq<Seq<char>>, k: int, n: int)
    requires
        0 <= k <= n,
        n <= ls.len(),
        n < ls.len() ==> names_segment(ls[n], NEWLINE_WORD@),
        forall|j: int| k <= j < n ==> !names_segment(#[trigger] ls[j], NEWLINE_WORD@),
    ensures
        newline_index(ls, k) == n,
    decreases n - k,
{
    if k < n {
        lemma_newline_index_first(ls, k + 1, n);
    }
}

/// Law: the `hitch` entry goes immediately before the first entry that
/// names the `newline` segment (so the terminal id shows on the first prompt
/// line), or after all entries when none does; the other entries keep their
/// order, and old `hitch` entries are gone.
pub proof fn lemma_hitch_before_newline(block: Seq<char>, n: int)
    requires
        ({
            let kept = without_hitch(lines(block));
            &&& 0 <= n <= kept.len()
            &&& n < kept.len() ==> names_segment(kept[n], "newline"@)
            &&& forall|j: int| 0 <= j < n ==> !names_segment(#[trigger] kept[j], "newline"@)
        }),
    ensures
        ({
            let kept = without_hitch(lines(block));
            with_hitch_segment(block) == join_lines(
                kept.subrange(0, n) + seq![HITCH_SEGMENT_LINE@] + kept.subrange(n, kept.len() as int),
            )
        }),
{
    reveal_strlit("newline");
    let kept = without_hitch(lines(block));
    assert(NEWLINE_WORD@ == "newline"@);
    lemma_newline_index_first(kept, 0, n);
    assert(kept.insert(n, HITCH_SEGMENT_LINE@) =~= kept.subrange(0, n) + seq![HITCH_SEGMENT_LINE@]
        + kept.subrange(n, kept.len() as int));
}

fn names_segment_exec(l: &[char], word: &str) -> (r: bool)
    ensures
        r == names_segment(l@, word@),
{
    let end = match find_char(l, '#', 0) {
        Some(k) => k,
        None => l.len(),
    };
    proof {
        lemma_find_char_from_props(l@, '#', 0);
        if end == l@.len() {
            assert(l@.subrange(0, end as int) == l@);
        }
    }
    let code = slice_chars(l, 0, end);
    let t = trimmed(code.as_slice());
    let w = chars_of(word);
    chars_eq(t.as_slice(), w.as_slice())
}

/// Joins lines with `\n`.
pub fn join_with_newlines(ls: &Vec<Vec<char>>) -> (r: Vec<char>)
    ensures
        r@ == join_lines(ls@.map_values(|v: Vec<char>| v@)),
{
    let ghost views = ls@.map_values(|v: Vec<char>| v@);
    let mut out: Vec<char> = Vec::new();
    let mut i: usize = 0;
    while i < ls.len()
        invariant
            i <= ls@.len(),
            views == ls@.map_values(|v: Vec<char>| v@),
            out@ == join_lines(views.take(i as int)),
        decreases ls@.len() - i,
    {
        if i > 0 {
            out.push('\n');
        }
        push_all(&mut out, ls[i].as_slice());
        proof {
            assert(views.take(i + 1).drop_last() == views.take(i as int));
            assert(views.take(i + 1).last() == ls@[i as int]@);
            if i == 0 {
                assert(views.take(1) =~= seq![views[0]]);
                assert(Seq::<char>::empty() + ls@[0]@ == ls@[0]@);
            }
        }
        i = i + 1;
    }
    proof {
        assert(views.take(ls@.len() as int) == views);
    }
    out
}

/// Makes the left prompt elements list name the `hitch` segment exactly once.
pub fn ensure_p10k_left_segment(raw: &str) -> (r: Result<String, HitchError>)
    ensures
        find(raw@, P10K_LEFT_KEY@) is None ==> (r matches Err(e) && e.kind == ErrorKind::Other
            && e.message@ == P10K_NO_ELEMENTS@),
        find(raw@, P10K_LEFT_KEY@) matches Some(start) ==> (find_from(raw@, P10K_LEFT_CLOSE@, start)
            is None ==> (r matches Err(e) && e.kind == ErrorKind::Other && e.message@
            == P10K_BAD_ELEMENTS@)),
        r is Ok == left_segment_update(raw@) is Some,
        r matches Ok(s) ==> left_segment_update(raw@) == Some(s@),
{
    let rc = chars_of(raw);
    let key = chars_of(P10K_LEFT_KEY);
    let close = chars_of(P10K_LEFT_CLOSE);
    let start = match find_chars(rc.as_slice(), key.as_slice()) {
        None => return Err(HitchError::new(ErrorKind::Other, P10K_NO_ELEMENTS)),
        Some(k) => k,
    };
    let end = match find_chars_from(rc.as_slice(), close.as_slice(), start) {
        None => return Err(HitchError::new(ErrorKind::Other, P10K_BAD_ELEMENTS)),
        Some(k) => k,
    };
    proof {
        lemma_find_from_props(rc@, close@, start as int);
        assert(crate::text::occurs_at(rc@, close@, end as int));
    }
    let block = slice_chars(rc.as_slice(), start, end);
    let ls = lines_of(block.as_slice());
    let ghost lv = lines(block@);
    let mut kept: Vec<Vec<char>> = Vec::new();
    let mut i: usize = 0;
    while i < ls.len()
        invariant
            i <= ls@.len(),
            ls@.len() == lv.len(),
            forall|j: int| 0 <= j < ls@.len() ==> #[trigger] ls@[j]@ == lv[j],
            kept@.map_values(|v: Vec<char>| v@) == without_hitch(lv.take(i as int)),
        decreases ls@.len() - i,
    {
        let is_hitch = names_segment_exec(ls[i].as_slice(), HITCH_WORD);
        let ghost before = kept@.map_values(|v: Vec<char>| v@);
        proof {
            assert(lv.take(i + 1).drop_last() == lv.take(i as int));
            assert(lv.take(i + 1).last() == lv[i as int]);
        }
        if !is_hitch {
            let line = slice_chars(ls[i].as_slice(), 0, ls[i].len());
            proof {
                assert(ls@[i as int]@.subrange(0, ls@[i as int]@.len() as int) == ls@[i as int]@);
            }
            kept.push(line);
            proof {
                assert(kept@.map_values(|v: Vec<char>| v@) =~= before.push(lv[i as int]));
            }
        }
        i = i + 1;
    }
    proof {
        assert(lv.take(lv.len() as int) == lv);
    }
    let ghost kv = kept@.map_values(|v: Vec<char>| v@);
    let mut idx: usize = 0;
    while idx < kept.len() && !names_segment_exec(kept[idx].as_slice(), NEWLINE_WORD)
        invariant
            idx <= kept@.len(),
            kv == kept@.map_values(|v: Vec<char>| v@),
            newline_index(kv, 0) == newline_index(kv, idx as int),
        decreases kept@.len() - idx,
    {
        proof {
            assert(kv[idx as int] == kept@[idx as int]@);
        }
        idx = idx + 1;
    }
    proof {
        if idx < kept@.len() {
            assert(kv[idx as int] == kept@[idx as int]@);
        }
    }
    let seg = chars_of(HITCH_SEGMENT_LINE);
    kept.insert(idx, seg);
    proof {
        assert(kept@.map_values(|v: Vec<char>| v@) =~= kv.insert(idx as int, HITCH_SEGMENT_LINE@));
    }
    let joined = join_with_newlines(&kept);
    let mut out = slice_chars(rc.as_slice(), 0, start);
    push_all(&mut out, joined.as_slice());
    let rest = slice_chars(rc.as_slice(), end, rc.len());
    push_all(&mut out, rest.as_slice());
    Ok(string_of(out.as_slice()))
}

/// The hitch segment function for `~/.p10k.zsh`, put in its marked block or
/// before one of the known anchors.
pub fn upsert_p10k_prompt_block(raw: &str) -> (r: Result<String, HitchError>)
    ensures
        !has_marked_block(raw@) && !contains(raw@, P10K_ANCHOR_SEGMENT@) && !contains(
            raw@,
            P10K_ANCHOR_TRANSIENT@,
        ) && !contains(raw@, P10K_ANCHOR_RELOAD@) ==> (r matches Err(e) && e.kind
            == ErrorKind::Other && e.message@ == P10K_NO_INSERTION_POINT@),
        r is Ok == p10k_block_update(raw@) is Some,
        r matches Ok(s) ==> p10k_block_update(raw@) == Some(s@),
{
    if has_hitch_marked_block(raw) {
        return Ok(upsert_marked_block(raw, P10K_PROMPT_BLOCK));
    }
    let rc = chars_of(raw);
    let a1 = chars_of(P10K_ANCHOR_SEGMENT);
    if find_chars(rc.as_slice(), a1.as_slice()).is_some() {
        return Ok(upsert_marked_block_before(raw, P10K_PROMPT_BLOCK, P10K_ANCHOR_SEGMENT));
    }
    let a2 = chars_of(P10K_ANCHOR_TRANSIENT);
    if find_chars(rc.as_slice(), a2.as_slice()).is_some() {
        return Ok(upsert_marked_block_before(raw, P10K_PROMPT_BLOCK, P10K_ANCHOR_TRANSIENT));
    }
    let a3 = chars_of(P10K_ANCHOR_RELOAD);
    if find_chars(rc.as_slice(), a3.as_slice()).is_some() {
        return Ok(upsert_marked_block_before(raw, P10K_PROMPT_BLOCK, P10K_ANCHOR_RELOAD));
    }
    Err(HitchError::new(ErrorKind::Other, P10K_NO_INSERTION_POINT))
}

/// The left-elements update: `None` when the list cannot be found.
pub open spec fn left_segment_update(raw: Seq<char>) -> Option<Seq<char>> {
    match find(raw, P10K_LEFT_KEY@) {
        None => None,
        Some(start) => match find_from(raw, P10K_LEFT_CLOSE@, start) {
            None => None,
            Some(end) => Some(raw.subrange(0, start) + with_hitch_segment(raw.subrange(start, end))
                + raw.subrange(end, raw.len() as int)),
        },
    }
}

/// The segment-function update: `None` when there is no safe place for it.
pub open spec fn p10k_block_update(raw: Seq<char>) -> Option<Seq<char>> {
    if has_marked_block(raw) {
        Some(upserted(raw, P10K_PROMPT_BLOCK@, seq![]))
    } else if contains(raw, P10K_ANCHOR_SEGMENT@) {
        Some(upserted(raw, P10K_PROMPT_BLOCK@, P10K_ANCHOR_SEGMENT@))
    } else if contains(raw, P10K_ANCHOR_TRANSIENT@) {
        Some(upserted(raw, P10K_PROMPT_BLOCK@, P10K_ANCHOR_TRANSIENT@))
    } else if contains(raw, P10K_ANCHOR_RELOAD@) {
        Some(upserted(raw, P10K_PROMPT_BLOCK@, P10K_ANCHOR_RELOAD@))
    } else {
        None
    }
}

/// What `~/.p10k.zsh` becomes: the left segment ensured, then the segment
/// function put in (the computing part of `setup_p10k_prompt`).
pub fn p10k_config_update(raw: &str) -> (r: Result<String, HitchError>)
    ensures
        r is Ok == (left_segment_update(raw@) matches Some(m) && p10k_block_update(m) is Some),
        r matches Ok(s) ==> left_segment_update(raw@) matches Some(m) && p10k_block_update(m)
            == Some(s@),
        r matches Err(e) ==> e.kind == ErrorKind::Other,
{
    let mid = ensure_p10k_left_segment(raw)?;
    upsert_p10k_prompt_block(mid.as_str())
}

// ---------------------------------------------------------------------------
// Agent skill version
// ---------------------------------------------------------------------------

pub const VERSION_KEY: &'static str = "version:";

pub open spec fn is_quote(c: char) -> bool {
    c == '"' || c == '\''
}

pub open spec fn strip_quotes_start(v: Seq<char>) -> Seq<char>
    decreases v.len(),
{
    if v.len() > 0 && is_quote(v[0]) {
        strip_quotes_start(v.drop_first())
    } else {
        v
    }
}

pub open spec fn strip_quotes_end(v: Seq<char>) -> Seq<char>
    decreases v.len(),
{
    if v.len() > 0 && is_quote(v.last()) {
        strip_quotes_end(v.drop_last())
    } else {
        v
    }
}

/// `v` with quotes (`"` and `'`) removed from both ends.
pub open spec fn strip_quotes(v: Seq<char>) -> Seq<char> {
    strip_quotes_end(strip_quotes_start(v))
}

/// The version a line declares: `version:` at the start of the trimmed line,
/// a non-empty trimmed value, quotes removed.
pub open spec fn version_field(line: Seq<char>) -> Option<Seq<char>> {
    let t = trim(line);
    if crate::text::starts_with(t, VERSION_KEY@) {
        let v = trim(t.subrange(VERSION_KEY@.len() as int, t.len() as int));
        if v.len() == 0 {
            None
        } else {
            Some(strip_quotes(v))
        }
    } else {
        None
    }
}

/// The first declared version among the lines.
pub open spec fn first_version(ls: Seq<Seq<char>>) -> Option<Seq<char>>
    decreases ls.len(),
{
    if ls.len() == 0 {
        None
    } else {
        match version_field(ls[0]) {
            Some(v) => Some(v),
            None => first_version(ls.drop_first()),
        }
    }
}

fn strip_quotes_exec(v: &[char]) -> (r: Vec<char>)
    ensures
        r@ == strip_quotes(v@),
{
    let n = v.len();
    let mut a: usize = 0;
    proof {
        assert(v@.subrange(0, n as int) == v@);
    }
    while a < n && (v[a] == '"' || v[a] == '\'')
        invariant
            a <= n == v@.len(),
            strip_quotes_start(v@) == strip_quotes_start(v@.subrange(a as int, n as int)),
        decreases n - a,
    {
        proof {
            let t = v@.subrange(a as int, n as int);
            assert(t.drop_first() == v@.subrange(a + 1, n as int));
            assert(t[0] == v@[a as int]);
        }
        a = a + 1;
    }
    proof {
        let t = v@.subrange(a as int, n as int);
        if a < n {
            assert(t[0] == v@[a as int]);
        }
    }
    let mut b: usize = n;
    while b > a && (v[b - 1] == '"' || v[b - 1] == '\'')
        invariant
            a <= b <= n == v@.len(),
            strip_quotes_end(v@.subrange(a as int, n as int)) == strip_quotes_end(
                v@.subrange(a as int, b as int),
            ),
        decreases b,
    {
        proof {
            let t = v@.subrange(a as int, b as int);
            assert(t.drop_last() == v@.subrange(a as int, b - 1));
            assert(t.last() == v@[b - 1]);
        }
        b = b - 1;
    }
    proof {
        let t = v@.subrange(a as int, b as int);
        if b > a {
            assert(t.last() == v@[b - 1]);
        }
    }
    slice_chars(v, a, b)
}

fn version_field_exec(line: &[char]) -> (r: Option<Vec<char>>)
    ensures
        r matches Some(v) ==> version_field(line@) == Some(v@),
        r is None ==> version_field(line@) is None,
{
    let t = trimmed(line);
    let key = chars_of(VERSION_KEY);
    if !crate::text::starts_with_chars(t.as_slice(), key.as_slice()) {
        return None;
    }
    let rest = slice_chars(t.as_slice(), key.len(), t.len());
    let v = trimmed(rest.as_slice());
    if v.len() == 0 {
        return None;
    }
    Some(strip_quotes_exec(v.as_slice()))
}

/// The version declared in a skill file.
pub fn skill_version(raw: &str) -> (r: Option<String>)
    ensures
        r matches Some(v) ==> first_version(lines(raw@)) == Some(v@),
        r is None ==> first_version(lines(raw@)) is None,
{
    let rc = chars_of(raw);
    let ls = lines_of(rc.as_slice());
    let ghost lv = lines(rc@);
    let mut i: usize = 0;
    proof {
        assert(lv.subrange(0, lv.len() as int) == lv);
    }
    while i < ls.len()
        invariant
            i <= ls@.len(),
            ls@.len() == lv.len(),
            lv == lines(raw@),
            forall|j: int| 0 <= j < ls@.len() ==> #[trigger] ls@[j]@ == lv[j],
            first_version(lv) == first_version(lv.subrange(i as int, lv.len() as int)),
        decreases ls@.len() - i,
    {
        let ghost rest = lv.subrange(i as int, lv.len() as int);
        proof {
            assert(rest[0] == lv[i as int]);
            assert(rest.drop_first() == lv.subrange(i + 1, lv.len() as int));
        }
        match version_field_exec(ls[i].as_slice()) {
            Some(v) => {
                return Some(string_of(v.as_slice()));
            },
            None => {},
        }
        i = i + 1;
    }
    None
}

// ---------------------------------------------------------------------------
// Versions
// ---------------------------------------------------------------------------

pub open spec fn is_version_sep(c: char) -> bool {
    c == '.' || c == '-'
}

pub open spec fn find_sep_from(s: Seq<char>, from: int) -> Option<int>
    decreases s.len() - from,
{
    if from < 0 || from >= s.len() {
        None
    } else if is_version_sep(s[from]) {
        Some(from)
    } else {
        find_sep_from(s, from + 1)
    }
}

/// The parts of `s[from..]` between `.` and `-` separators.
pub open spec fn version_parts(s: Seq<char>, from: int) -> Seq<Seq<char>>
    decreases s.len() - from,
{
    if from < 0 || from > s.len() {
        seq![]
    } else {
        match find_sep_from(s, from) {
            None => seq![s.subrange(from, s.len() as int)],
            Some(k) => if from <= k < s.len() {
                seq![s.subrange(from, k)] + version_parts(s, k + 1)
            } else {
                seq![]
            },
        }
    }
}

pub open spec fn part_value(p: Seq<char>) -> u64 {
    match parse_unsigned(p, u64::MAX as nat) {
        Some(v) => v as u64,
        None => 0,
    }
}

/// The numeric parts of a version; a part that is not a number counts as 0.
pub open spec fn parsed_version(s: Seq<char>) -> Seq<u64> {
    version_parts(s, 0).map_values(|p: Seq<char>| part_value(p))
}

pub open spec fn part_at(v: Seq<u64>, k: int) -> u64 {
    if 0 <= k < v.len() {
        v[k]
    } else {
        0
    }
}

pub open spec fn max_len(a: Seq<u64>, b: Seq<u64>) -> int {
    if a.len() >= b.len() {
        a.len() as int
    } else {
        b.len() as int
    }
}

/// `a < b` comparing parts from index `k` on, missing parts counting as 0.
pub open spec fn parts_less_from(a: Seq<u64>, b: Seq<u64>, k: int) -> bool
    decreases max_len(a, b) - k,
{
    if k < 0 || k >= max_len(a, b) {
        false
    } else if part_at(a, k) != part_at(b, k) {
        part_at(a, k) < part_at(b, k)
    } else {
        parts_less_from(a, b, k + 1)
    }
}

pub open spec fn parts_less(a: Seq<u64>, b: Seq<u64>) -> bool {
    parts_less_from(a, b, 0)
}

/// Whether version `left` is older than `right`.
pub open spec fn version_less(left: Seq<char>, right: Seq<char>) -> bool {
    parts_less(parsed_version(left), parsed_version(right))
}

/// The numeric parts of a version.
pub fn parse_version(version: &str) -> (r: Vec<u64>)
    ensures
        r@ == parsed_version(version@),
{
    let s = chars_of(version);
    let n = s.len();
    let mut out: Vec<u64> = Vec::new();
    let mut from: usize = 0;
    let mut more = true;
    let ghost all = version_parts(s@, 0);
    proof {
        assert(out@ + all.map_values(|p: Seq<char>| part_value(p)) == all.map_values(
            |p: Seq<char>| part_value(p),
        ));
    }
    while more
        invariant
            n == s@.len(),
            s@ == version@,
            all == version_parts(s@, 0),
            more ==> from <= n,
            more ==> all.map_values(|p: Seq<char>| part_value(p)) == out@ + version_parts(
                s@,
                from as int,
            ).map_values(|p: Seq<char>| part_value(p)),
            !more ==> all.map_values(|p: Seq<char>| part_value(p)) == out@,
        decreases (if more { n + 1 - from } else { 0 }),
    {
        let mut e = from;
        while e < n && !(s[e] == '.' || s[e] == '-')
            invariant
                from <= e <= n == s@.len(),
                find_sep_from(s@, from as int) == find_sep_from(s@, e as int),
            decreases n - e,
        {
            e = e + 1;
        }
        let part = slice_chars(s.as_slice(), from, e);
        let v = match parse_u64(part.as_slice()) {
            Some(x) => x,
            None => 0,
        };
        let ghost before = out@;
        let ghost rest = version_parts(s@, from as int);
        out.push(v);
        if e < n {
            proof {
                assert(rest == seq![s@.subrange(from as int, e as int)] + version_parts(
                    s@,
                    e + 1,
                ));
                assert(rest.map_values(|p: Seq<char>| part_value(p)) =~= seq![v]
                    + version_parts(s@, e + 1).map_values(|p: Seq<char>| part_value(p)));
                assert(before + (seq![v] + version_parts(s@, e + 1).map_values(
                    |p: Seq<char>| part_value(p),
                )) == out@ + version_parts(s@, e + 1).map_values(|p: Seq<char>| part_value(p)));
            }
            from = e + 1;
        } else {
            proof {
                assert(rest == seq![s@.subrange(from as int, n as int)]);
                assert(rest.map_values(|p: Seq<char>| part_value(p)) =~= seq![v]);
            }
            more = false;
        }
    }
    out
}

/// Whether version `left` is older than `right`, comparing numeric parts.
pub fn version_less_than(left: &str, right: &str) -> (r: bool)
    ensures
        r == version_less(left@, right@),
{
    let l = parse_version(left);
    let r = parse_version(right);
    let len = if l.len() >= r.len() {
        l.len()
    } else {
        r.len()
    };
    let mut index: usize = 0;
    while index < len
        invariant
            l@ == parsed_version(left@),
            r@ == parsed_version(right@),
            len == max_len(l@, r@),
            index <= len,
            parts_less(l@, r@) == parts_less_from(l@, r@, index as int),
        decreases len - index,
    {
        let lp = if index < l.len() {
            l[index]
        } else {
            0
        };
        let rp = if index < r.len() {
            r[index]
        } else {
            0
        };
        if lp != rp {
            proof {
                assert(part_at(l@, index as int) == lp);
                assert(part_at(r@, index as int) == rp);
                assert(parts_less_from(l@, r@, index as int) == (lp < rp));
            }
            return lp < rp;
        }
        index = index + 1;
    }
    false
}

/// Law: "older than" is a strict order on versions.
pub proof fn lemma_parts_less_irreflexive(a: Seq<u64>, k: int)
    ensures
        !parts_less_from(a, a, k),
    decreases max_len(a, a) - k,
{
    if 0 <= k < max_len(a, a) {
        lemma_parts_less_irreflexive(a, k + 1);
    }
}

pub proof fn lemma_parts_less_asymmetric(a: Seq<u64>, b: Seq<u64>, k: int)
    ensures
        parts_less_from(a, b, k) ==> !parts_less_from(b, a, k),
    decreases max_len(a, b) - k,
{
    if 0 <= k < max_len(a, b) && part_at(a, k) == part_at(b, k) {
        lemma_parts_less_asymmetric(a, b, k + 1);
    }
}

pub proof fn lemma_parts_less_transitive(a: Seq<u64>, b: Seq<u64>, c: Seq<u64>, k: int)
    requires
        k >= 0,
    ensures
        parts_less_from(a, b, k) && parts_less_from(b, c, k) ==> parts_less_from(a, c, k),
    decreases max_len(a, b) - k,
{
    if parts_less_from(a, b, k) && parts_less_from(b, c, k) {
        if part_at(a, k) == part_at(b, k) && part_at(b, k) == part_at(c, k) {
            lemma_parts_less_transitive(a, b, c, k + 1);
        } else {
            lemma_parts_at_decide(a, b, k);
            lemma_parts_at_decide(b, c, k);
            lemma_parts_at_decide(a, c, k);
        }
    }
}

/// Where two part lists first differ at `k`, that difference decides.
proof fn lemma_parts_at_decide(a: Seq<u64>, b: Seq<u64>, k: int)
    requires
        k >= 0,
    ensures
        part_at(a, k) != part_at(b, k) ==> parts_less_from(a, b, k) == (part_at(a, k) < part_at(
            b,
            k,
        )),
        part_at(a, k) == part_at(b, k) && k < max_len(a, b) ==> parts_less_from(a, b, k)
            == parts_less_from(a, b, k + 1),
{
}

/// Law: no version is older than itself, and of two versions at most one is
/// older than the other.
pub proof fn lemma_version_order(x: Seq<char>, y: Seq<char>)
    ensures
        !version_less(x, x),
        version_less(x, y) ==> !version_less(y, x),
{
    lemma_parts_less_irreflexive(parsed_version(x), 0);
    lemma_parts_less_asymmetric(parsed_version(x), parsed_version(y), 0);
}

/// Law: "older than" is transitive.
pub proof fn lemma_version_transitive(x: Seq<char>, y: Seq<char>, z: Seq<char>)
    ensures
        version_less(x, y) && version_less(y, z) ==> version_less(x, z),
{
    lemma_parts_less_transitive(parsed_version(x), parsed_version(y), parsed_version(z), 0);
}

// ---------------------------------------------------------------------------
// Which shell, which file
// ---------------------------------------------------------------------------

/// The shells that get an integration block.
#[derive(Debug, Clone, Copy, PartialEq, Eq, Structural)]
pub enum ShellKind {
    Zsh,
    Bash,
    Fish,
    Unsupported,
}

/// The shell's name: the file name of `$SHELL`, or `unknown`.
pub open spec fn shell_name(shell_env: Option<Seq<char>>) -> Seq<char> {
    match shell_env {
        Some(s) => match file_name(s) {
            Some(n) => n,
            None => "unknown"@,
        },
        None => "unknown"@,
    }
}

/// The name of the user's shell, from the value of `SHELL` when it is set
/// and valid Unicode.
pub fn detect_shell(shell_env: Option<&str>) -> (r: String)
    ensures
        r@ == shell_name(match shell_env {
            Some(s) => Some(s@),
            None => None,
        }),
{
    match shell_env {
        Some(s) => {
            let sc = chars_of(s);
            match file_name_of(sc.as_slice()) {
                Some(n) => string_of(n.as_slice()),
                None => string_of(chars_of("unknown").as_slice()),
            }
        },
        None => string_of(chars_of("unknown").as_slice()),
    }
}

pub open spec fn kind_of_shell(name: Seq<char>) -> ShellKind {
    if name == "zsh"@ {
        ShellKind::Zsh
    } else if name == "bash"@ {
        ShellKind::Bash
    } else if name == "fish"@ {
        ShellKind::Fish
    } else {
        ShellKind::Unsupported
    }
}

/// Which integration a shell name gets.
pub fn shell_kind(name: &str) -> (r: ShellKind)
    ensures
        r == kind_of_shell(name@),
{
    if str_is(name, "zsh") {
        ShellKind::Zsh
    } else if str_is(name, "bash") {
        ShellKind::Bash
    } else if str_is(name, "fish") {
        ShellKind::Fish
    } else {
        ShellKind::Unsupported
    }
}

/// A file under the home directory, when `HOME` is known.
pub fn home_file(home: Option<&str>, name: &str) -> (r: Option<String>)
    ensures
        r matches Some(p) ==> home matches Some(h) && p@ == join(h@, name@),
        r is None ==> home is None,
{
    match home {
        Some(h) => Some(path_join(h, name)),
        None => None,
    }
}

pub const ZSHRC: &'static str = ".zshrc";

pub const BASHRC: &'static str = ".bashrc";

pub const FISH_CONF: &'static str = ".config/fish/conf.d/hitch.fish";

pub const P10K_CONFIG: &'static str = ".p10k.zsh";

/// The rc file a shell's integration lives in, relative to the home
/// directory, and the block it must hold.
pub open spec fn essential_target(kind: ShellKind) -> Option<(Seq<char>, Seq<char>)> {
    match kind {
        ShellKind::Zsh => Some((ZSHRC@, ZSH_PROMPT_BLOCK@)),
        ShellKind::Bash => Some((BASHRC@, BASH_PROMPT_BLOCK@)),
        ShellKind::Fish => Some((FISH_CONF@, FISH_PROMPT_BLOCK@)),
        ShellKind::Unsupported => None,
    }
}

/// The rc file and block the shell's integration needs, when the shell is
/// supported and `HOME` is known.
pub fn essential_shell_integration(shell: &str, home: Option<&str>) -> (r: Option<
    (String, &'static str),
>)
    ensures
        r matches Some((p, b)) ==> home matches Some(h) && essential_target(
            kind_of_shell(shell@),
        ) matches Some((f, blk)) && p@ == join(h@, f) && b@ == blk,
        r is None ==> home is None || essential_target(kind_of_shell(shell@)) is None,
{
    let (file, block): (&'static str, &'static str) = match shell_kind(shell) {
        ShellKind::Zsh => (ZSHRC, ZSH_PROMPT_BLOCK),
        ShellKind::Bash => (BASHRC, BASH_PROMPT_BLOCK),
        ShellKind::Fish => (FISH_CONF, FISH_PROMPT_BLOCK),
        ShellKind::Unsupported => {
            return None;
        },
    };
    match home_file(home, file) {
        Some(p) => Some((p, block)),
        None => None,
    }
}

/// Where a shell's integration stands in its rc file.
#[derive(Debug, Clone, Copy, PartialEq, Eq, Structural)]
pub enum ShellIntegrationState {
    Current,
    Outdated,
    Missing,
}

pub open spec fn integration_state(raw: Seq<char>, block: Seq<char>) -> ShellIntegrationState {
    if !has_marked_block(raw) {
        ShellIntegrationState::Missing
    } else if upserted(raw, block, seq![]) == raw {
        ShellIntegrationState::Current
    } else {
        ShellIntegrationState::Outdated
    }
}

/// The state of the integration given the rc file's text (empty when it
/// cannot be read) and the block it should hold.
pub fn shell_integration_state(raw: &str, block: &str) -> (r: ShellIntegrationState)
    ensures
        r == integration_state(raw@, block@),
{
    if !has_hitch_marked_block(raw) {
        return ShellIntegrationState::Missing;
    }
    let updated = upsert_marked_block(raw, block);
    if str_is(updated.as_str(), raw) {
        ShellIntegrationState::Current
    } else {
        ShellIntegrationState::Outdated
    }
}

/// What an rc file must be rewritten to, or `None` when it already holds
/// the block as it should.
pub fn rc_file_update(raw: &str, block: &str) -> (r: Option<String>)
    ensures
        r matches Some(s) ==> s@ == upserted(raw@, block@, seq![]) && s@ != raw@,
        r is None ==> upserted(raw@, block@, seq![]) == raw@,
{
    let updated = upsert_marked_block(raw, block);
    if str_is(updated.as_str(), raw) {
        None
    } else {
        Some(updated)
    }
}

/// The name a backup copy gets: the file's name (or `config`) and the time.
pub open spec fn backup_name(path: Seq<char>, now: u64) -> Seq<char> {
    let name = match file_name(path) {
        Some(n) => n,
        None => "config"@,
    };
    name + seq!['.'] + crate::text::decimal(now as nat)
}

/// The file name of the backup made of `path` at time `now`.
pub fn backup_file_name(path: &str, now: u64) -> (r: String)
    ensures
        r@ == backup_name(path@, now),
{
    let pc = chars_of(path);
    let mut out: Vec<char> = match file_name_of(pc.as_slice()) {
        Some(n) => n,
        None => chars_of("config"),
    };
    out.push('.');
    crate::text::push_decimal(&mut out, now as u128);
    string_of(out.as_slice())
}

// ---------------------------------------------------------------------------
// Putting a block in twice
// ---------------------------------------------------------------------------

/// How many spaces `b` starts with.
pub open spec fn leading_spaces(b: Seq<char>) -> nat
    decreases b.len(),
{
    if b.len() > 0 && b[0] == ' ' {
        1 + leading_spaces(b.drop_first())
    } else {
        0
    }
}

/// A block whose text (without trailing whitespace) is the shell start
/// marker after some spaces, and holds the end marker only at its very end.
pub open spec fn well_marked(block: Seq<char>) -> bool {
    let b = trim_end(block);
    let c = b.subrange(leading_spaces(b) as int, b.len() as int);
    &&& starts_with(c, SHELL_START@)
    &&& find(c, SHELL_END@) == Some(c.len() - SHELL_END@.len())
}

/// The first `marker` in `raw`, if any, has only whitespace before it on
/// its line.
pub open spec fn marker_line_clear(raw: Seq<char>, marker: Seq<char>) -> bool {
    match find(raw, marker) {
        Some(start) => is_blank(raw.subrange(line_start_of(raw.subrange(0, start)), start)),
        None => true,
    }
}

/// The marked block that putting a block in would replace, if any, has only
/// whitespace before its start marker on its line.
pub open spec fn replaced_marker_line_clear(raw: Seq<char>) -> bool {
    if find(raw, SHELL_START@) is Some {
        marker_line_clear(raw, SHELL_START@)
    } else {
        match find(raw, PROMPT_START@) {
            Some(s) => find(raw.subrange(s, raw.len() as int), PROMPT_END@) is Some
                ==> marker_line_clear(raw, PROMPT_START@),
            None => true,
        }
    }
}

/// The first shell start marker in `raw`, if any, has an end marker after
/// it.
pub open spec fn no_dangling_start(raw: Seq<char>) -> bool {
    match find(raw, SHELL_START@) {
        Some(start) => find(raw.subrange(start, raw.len() as int), SHELL_END@) is Some,
        None => true,
    }
}

/// Where the line holding index `s.len()` starts.
pub open spec fn line_start_of(s: Seq<char>) -> int {
    match rfind_char(s, '\n') {
        Some(p) => p + 1,
        None => 0,
    }
}

proof fn lemma_start_marker_facts()
    ensures
        SHELL_START@.len() == 33,
        SHELL_START@[0] == '#',
        SHELL_START@[32] == '>',
        forall|j: int| 0 < j < SHELL_START@.len() ==> SHELL_START@[j] != '#',
        forall|j: int| 0 <= j < SHELL_START@.len() ==> SHELL_START@[j] != '\n',
{
    reveal_strlit("# >>> hitch shell integration >>>");
}

/// The first occurrence is the one at `k` when there is none before it.
proof fn lemma_find_first(s: Seq<char>, p: Seq<char>, k: int)
    requires
        0 <= k,
        crate::text::occurs_at(s, p, k),
        forall|j: int| 0 <= j < k ==> !crate::text::occurs_at(s, p, j),
    ensures
        find(s, p) == Some(k),
{
    lemma_find_from_props(s, p, 0);
    match find(s, p) {
        Some(i) => {
            if i < k {
                assert(!crate::text::occurs_at(s, p, i));
            }
            if i > k {
                assert(!crate::text::occurs_at(s, p, k));
            }
        },
        None => {
            assert(!crate::text::occurs_at(s, p, k));
        },
    }
}

/// An occurrence inside a prefix is an occurrence in the whole.
proof fn lemma_occurs_prefix(s: Seq<char>, n: int, p: Seq<char>, j: int)
    requires
        0 <= j,
        j + p.len() <= n <= s.len(),
    ensures
        crate::text::occurs_at(s.subrange(0, n), p, j) == crate::text::occurs_at(s, p, j),
{
    assert(s.subrange(0, n).subrange(j, j + p.len()) == s.subrange(j, j + p.len()));
}

/// With `rest` starting with the start marker and no marker inside `pre`,
/// the first marker of `pre + rest` is where `rest` starts.
proof fn lemma_first_start_marker(pre: Seq<char>, rest: Seq<char>)
    requires
        starts_with(rest, SHELL_START@),
        find(pre, SHELL_START@) is None,
    ensures
        find(pre + rest, SHELL_START@) == Some(pre.len() as int),
{
    let m = SHELL_START@;
    let x = pre + rest;
    lemma_start_marker_facts();
    lemma_find_from_props(pre, m, 0);
    assert(x.subrange(pre.len() as int, (pre.len() + m.len()) as int) == rest.subrange(0, m.len() as int));
    assert forall|j: int| 0 <= j < pre.len() implies !crate::text::occurs_at(x, m, j) by {
        if j + m.len() <= pre.len() {
            assert(x.subrange(0, pre.len() as int) == pre);
            lemma_occurs_prefix(x, pre.len() as int, m, j);
            assert(!crate::text::occurs_at(pre, m, j));
        } else if crate::text::occurs_at(x, m, j) {
            let d = pre.len() - j;
            assert(x.subrange(j, j + m.len())[d] == x[pre.len() as int]);
            assert(x[pre.len() as int] == rest[0]);
            assert(rest[0] == m[0]) by {
                assert(rest.subrange(0, m.len() as int)[0] == rest[0]);
            }
            assert(m[d] == '#');
        }
    }
    lemma_find_first(x, m, pre.len() as int);
}

/// The end marker that ends `b` is the first one of `b + post`.
proof fn lemma_first_end_marker(b: Seq<char>, post: Seq<char>)
    requires
        find(b, SHELL_END@) == Some(b.len() - SHELL_END@.len()),
    ensures
        find(b + post, SHELL_END@) == Some(b.len() - SHELL_END@.len()),
{
    let m = SHELL_END@;
    let x = b + post;
    let k = b.len() - m.len();
    lemma_find_from_props(b, m, 0);
    assert(x.subrange(0, b.len() as int) == b);
    lemma_occurs_prefix(x, b.len() as int, m, k);
    assert forall|j: int| 0 <= j < k implies !crate::text::occurs_at(x, m, j) by {
        lemma_occurs_prefix(x, b.len() as int, m, j);
    }
    lemma_find_first(x, m, k);
}

/// A text `pre + b + post`, where `b` is a well-marked block, no marker is
/// inside `pre`, and `pre` ends where a line starts (or, for a block with no
/// spaces before its marker, after text on the marker's line), is left as it
/// is by putting the block in.
proof fn lemma_block_in_place(pre: Seq<char>, block: Seq<char>, post: Seq<char>)
    requires
        well_marked(block),
        find(pre, SHELL_START@) is None,
        line_start_of(pre) == pre.len() || (leading_spaces(trim_end(block)) == 0 && !is_blank(
            pre.subrange(line_start_of(pre), pre.len() as int),
        )),
    ensures
        replace_marked(pre + trim_end(block) + post, block, SHELL_START@, SHELL_END@) == Some(
            pre + trim_end(block) + post,
        ),
        find(pre + trim_end(block) + post, SHELL_START@) is Some,
{
    let b = trim_end(block);
    let k = leading_spaces(b) as int;
    lemma_leading_spaces(b);
    let sp = b.subrange(0, k);
    let c = b.subrange(k, b.len() as int);
    assert(b =~= sp + c);
    let x = pre + b + post;
    let head = pre + sp;
    assert(x =~= head + (c + post));
    assert(forall|j: int| 0 <= j < sp.len() ==> sp[j] == ' ');
    lemma_no_marker_appended(pre, sp);
    assert(starts_with(c + post, SHELL_START@)) by {
        assert((c + post).subrange(0, SHELL_START@.len() as int) == c.subrange(0, SHELL_START@.len() as int));
    }
    lemma_first_start_marker(head, c + post);
    let start = head.len() as int;
    assert(x.subrange(start, x.len() as int) =~= c + post);
    lemma_first_end_marker(c, post);
    assert(x.subrange(0, start) =~= head);
    lemma_rfind_char(pre, '\n');
    lemma_line_start_spaces(pre, sp);
    let ls = line_start_of(pre);
    let end = start + (c.len() - SHELL_END@.len()) + SHELL_END@.len();
    assert(end == pre.len() + b.len());
    assert(x.subrange(end, x.len() as int) =~= post);
    assert(line_start_of(x.subrange(0, start)) == ls);
    let rs = if is_blank(x.subrange(ls, start)) {
        ls
    } else {
        start
    };
    if ls == pre.len() {
        assert(x.subrange(ls, start) =~= sp);
        assert(is_blank(x.subrange(ls, start)));
        assert(rs == pre.len());
    } else {
        assert(k == 0);
        assert(x.subrange(ls, start) =~= pre.subrange(ls, pre.len() as int));
        assert(rs == pre.len());
    }
    assert(x.subrange(0, rs) + b + x.subrange(end, x.len() as int) =~= x);
}

proof fn lemma_rfind_last(s: Seq<char>)
    requires
        s.len() > 0,
        s.last() == '\n',
    ensures
        line_start_of(s) == s.len(),
{
}

/// No marker lies inside `t + y` when none lies inside `t` and `y` holds
/// no `>` (the marker's last character).
proof fn lemma_no_marker_appended(t: Seq<char>, y: Seq<char>)
    requires
        find(t, SHELL_START@) is None,
        forall|j: int| 0 <= j < y.len() ==> y[j] != '>',
    ensures
        find(t + y, SHELL_START@) is None,
{
    let m = SHELL_START@;
    let x = t + y;
    lemma_start_marker_facts();
    lemma_find_from_props(t, m, 0);
    lemma_find_from_props(x, m, 0);
    if let Some(j) = find(x, m) {
        if j + m.len() <= t.len() {
            assert(x.subrange(0, t.len() as int) == t);
            lemma_occurs_prefix(x, t.len() as int, m, j);
        } else {
            let d = m.len() - 1;
            assert(x.subrange(j, j + m.len())[d] == x[j + d]);
            assert(x[j + d] == y[j + d - t.len()]);
        }
    }
}

proof fn lemma_leading_spaces(b: Seq<char>)
    ensures
        leading_spaces(b) <= b.len(),
        forall|j: int| 0 <= j < leading_spaces(b) ==> b[j] == ' ',
        leading_spaces(b) < b.len() ==> b[leading_spaces(b) as int] != ' ',
    decreases b.len(),
{
    if b.len() > 0 && b[0] == ' ' {
        lemma_leading_spaces(b.drop_first());
        assert forall|j: int| 0 <= j < leading_spaces(b) implies b[j] == ' ' by {
            if j > 0 {
                assert(b[j] == b.drop_first()[j - 1]);
            }
        }
    }
}

/// Spaces after a text do not move where its last line starts.
proof fn lemma_line_start_spaces(t: Seq<char>, sp: Seq<char>)
    requires
        forall|j: int| 0 <= j < sp.len() ==> sp[j] == ' ',
    ensures
        line_start_of(t + sp) == line_start_of(t),
    decreases sp.len(),
{
    if sp.len() == 0 {
        assert(t + sp == t);
    } else {
        assert((t + sp).drop_last() == t + sp.drop_last());
        assert((t + sp).last() == sp.last());
        lemma_line_start_spaces(t, sp.drop_last());
    }
}

/// The replaced text of a marked block: what comes before it has no start
/// marker and ends at a line start or after text on the marker's line.
proof fn lemma_replaced_prefix(raw: Seq<char>, block: Seq<char>, sm: Seq<char>, em: Seq<char>)
    requires
        replace_marked(raw, block, sm, em) is Some,
        sm.len() > 0,
        sm == SHELL_START@ || find(raw, SHELL_START@) is None,
    ensures
        ({
            let start = find(raw, sm)->0;
            let ls = line_start_of(raw.subrange(0, start));
            let rs = if is_blank(raw.subrange(ls, start)) {
                ls
            } else {
                start
            };
            let pre = raw.subrange(0, rs);
            &&& 0 <= rs <= start <= raw.len()
            &&& find(pre, SHELL_START@) is None
            &&& (line_start_of(pre) == pre.len() || !is_blank(pre.subrange(line_start_of(pre), pre.len() as int)))
            &&& (is_blank(raw.subrange(ls, start)) ==> line_start_of(pre) == pre.len())
        }),
{
    let start = find(raw, sm)->0;
    lemma_find_from_props(raw, sm, 0);
    let head = raw.subrange(0, start);
    lemma_rfind_char(head, '\n');
    let ls = line_start_of(head);
    let rs = if is_blank(raw.subrange(ls, start)) {
        ls
    } else {
        start
    };
    let pre = raw.subrange(0, rs);
    lemma_find_from_props(pre, SHELL_START@, 0);
    lemma_find_from_props(raw, SHELL_START@, 0);
    if let Some(j) = find(pre, SHELL_START@) {
        lemma_occurs_prefix(raw, rs, SHELL_START@, j);
    }
    if rs == ls {
        if ls > 0 {
            assert(pre.last() == head[ls - 1]);
            lemma_rfind_last(pre);
        } else {
            assert(pre.len() == 0);
        }
    } else {
        assert(pre == head);
        assert(raw.subrange(ls, start) == pre.subrange(ls, pre.len() as int));
    }
}

/// Law: putting a well-marked block into a text a second time changes
/// nothing more (whatever anchor either call is given), unless the text
/// holds a start marker with no end marker after it, or the block is
/// indented and the marked block it replaces shares its marker's line with
/// other text.
pub proof fn lemma_upsert_idempotent(
    raw: Seq<char>,
    block: Seq<char>,
    anchor: Seq<char>,
    anchor2: Seq<char>,
)
    requires
        well_marked(block),
        no_dangling_start(raw),
        leading_spaces(trim_end(block)) == 0 || replaced_marker_line_clear(raw),
    ensures
        upserted(upserted(raw, block, anchor), block, anchor2) == upserted(raw, block, anchor),
        has_marked_block(upserted(raw, block, anchor)),
{
    let b = trim_end(block);
    let out = upserted(raw, block, anchor);
    lemma_start_marker_facts();
    lemma_find_from_props(raw, SHELL_START@, 0);
    if let Some(o) = replace_marked(raw, block, SHELL_START@, SHELL_END@) {
        lemma_replaced_prefix(raw, block, SHELL_START@, SHELL_END@);
        let start = find(raw, SHELL_START@)->0;
        let end_rel = find(raw.subrange(start, raw.len() as int), SHELL_END@)->0;
        let ls = line_start_of(raw.subrange(0, start));
        let rs = if is_blank(raw.subrange(ls, start)) {
            ls
        } else {
            start
        };
        let end = start + end_rel + SHELL_END@.len();
        let pre = raw.subrange(0, rs);
        let post = raw.subrange(end, raw.len() as int);
        assert(o == pre + b + post);
        lemma_block_in_place(pre, block, post);
    } else {
        assert(find(raw, SHELL_START@) is None);
        if let Some(o) = replace_marked(raw, block, PROMPT_START@, PROMPT_END@) {
            reveal_strlit("# >>> hitch prompt integration >>>");
            lemma_replaced_prefix(raw, block, PROMPT_START@, PROMPT_END@);
            let start = find(raw, PROMPT_START@)->0;
            let end_rel = find(raw.subrange(start, raw.len() as int), PROMPT_END@)->0;
            let ls = line_start_of(raw.subrange(0, start));
            let rs = if is_blank(raw.subrange(ls, start)) {
                ls
            } else {
                start
            };
            let end = start + end_rel + PROMPT_END@.len();
            let pre = raw.subrange(0, rs);
            let post = raw.subrange(end, raw.len() as int);
            assert(o == pre + b + post);
            lemma_block_in_place(pre, block, post);
        } else if anchor.len() > 0 && find(raw, anchor) is Some {
            let idx = find(raw, anchor)->0;
            lemma_find_from_props(raw, anchor, 0);
            let t = trim_end(raw.subrange(0, idx));
            lemma_trim_end_is_prefix(raw.subrange(0, idx));
            assert(t == raw.subrange(0, t.len() as int));
            lemma_find_from_props(t, SHELL_START@, 0);
            if let Some(j) = find(t, SHELL_START@) {
                lemma_occurs_prefix(raw, t.len() as int, SHELL_START@, j);
            }
            lemma_no_marker_appended(t, nl2());
            let pre = t + nl2();
            let post = nl2() + raw.subrange(idx, raw.len() as int);
            assert(out == pre + b + post);
            lemma_rfind_last(pre);
            lemma_block_in_place(pre, block, post);
        } else {
            let t = trim_end(raw);
            lemma_trim_end_is_prefix(raw);
            lemma_find_from_props(t, SHELL_START@, 0);
            if let Some(j) = find(t, SHELL_START@) {
                lemma_occurs_prefix(raw, t.len() as int, SHELL_START@, j);
            }
            if t.len() > 0 {
                lemma_no_marker_appended(t, nl2());
                let pre = t + nl2();
                assert(out == pre + b + seq!['\n']);
                lemma_rfind_last(pre);
                lemma_block_in_place(pre, block, seq!['\n']);
            } else {
                let pre = Seq::<char>::empty();
                assert(out == pre + b + seq!['\n']);
                lemma_find_from_props(pre, SHELL_START@, 0);
                lemma_block_in_place(pre, block, seq!['\n']);
            }
        }
    }
}

/// Everything after the trimmed part of a text is whitespace.
proof fn lemma_trim_end_rest(s: Seq<char>)
    ensures
        trim_end(s).len() <= s.len(),
        forall|i: int| trim_end(s).len() <= i < s.len() ==> crate::text::is_space(#[trigger] s[i]),
    decreases s.len(),
{
    if s.len() > 0 && crate::text::is_space(s.last()) {
        lemma_trim_end_rest(s.drop_last());
        assert forall|i: int| trim_end(s).len() <= i < s.len() implies crate::text::is_space(#[trigger] s[i]) by {
            if i < s.len() - 1 {
                assert(s[i] == s.drop_last()[i]);
            }
        }
    }
}

/// A marker that ends in a non-space character survives trimming.
proof fn lemma_trim_end_keeps(s: Seq<char>, m: Seq<char>)
    requires
        contains(s, m),
        m.len() > 0,
        !crate::text::is_space(m.last()),
    ensures
        contains(trim_end(s), m),
{
    lemma_find_from_props(s, m, 0);
    let j = find(s, m)->0;
    let t = trim_end(s);
    lemma_trim_end_rest(s);
    lemma_trim_end_is_prefix(s);
    let last = j + m.len() - 1;
    assert(s[last] == s.subrange(j, j + m.len())[m.len() - 1]);
    assert(last < t.len());
    assert(t.subrange(j, j + m.len()) =~= s.subrange(j, j + m.len()));
    assert(crate::text::occurs_at(t, m, j));
    lemma_find_from_props(t, m, 0);
}

/// A marker inside the middle piece is inside the whole.
proof fn lemma_contains_middle(x: Seq<char>, y: Seq<char>, z: Seq<char>, m: Seq<char>)
    requires
        contains(y, m),
    ensures
        contains(x + y + z, m),
{
    lemma_find_from_props(y, m, 0);
    let j = find(y, m)->0;
    let w = x + y + z;
    assert(w.subrange(x.len() + j, x.len() + j + m.len()) =~= y.subrange(j, j + m.len()));
    assert(crate::text::occurs_at(w, m, x.len() + j));
    lemma_find_from_props(w, m, 0);
}

/// Law: whatever the text and the anchor, putting in a block that holds a
/// hitch start marker leaves a hitch block in the text.
pub proof fn lemma_upsert_keeps_marker(raw: Seq<char>, block: Seq<char>, anchor: Seq<char>)
    requires
        has_marked_block(block),
    ensures
        has_marked_block(upserted(raw, block, anchor)),
{
    let b = trim_end(block);
    let m = if contains(block, SHELL_START@) {
        SHELL_START@
    } else {
        PROMPT_START@
    };
    reveal_strlit("# >>> hitch shell integration >>>");
    reveal_strlit("# >>> hitch prompt integration >>>");
    assert(m.last() == '>');
    lemma_trim_end_keeps(block, m);
    let out = upserted(raw, block, anchor);
    let (x, z) = match replace_marked(raw, block, SHELL_START@, SHELL_END@) {
        Some(o) => {
            let start = find(raw, SHELL_START@)->0;
            let end_rel = find(raw.subrange(start, raw.len() as int), SHELL_END@)->0;
            let ls = line_start_of(raw.subrange(0, start));
            let rs = if is_blank(raw.subrange(ls, start)) { ls } else { start };
            let end = start + end_rel + SHELL_END@.len();
            (raw.subrange(0, rs), raw.subrange(end, raw.len() as int))
        },
        None => match replace_marked(raw, block, PROMPT_START@, PROMPT_END@) {
            Some(o) => {
                let start = find(raw, PROMPT_START@)->0;
                let end_rel = find(raw.subrange(start, raw.len() as int), PROMPT_END@)->0;
                let ls = line_start_of(raw.subrange(0, start));
                let rs = if is_blank(raw.subrange(ls, start)) { ls } else { start };
                let end = start + end_rel + PROMPT_END@.len();
                (raw.subrange(0, rs), raw.subrange(end, raw.len() as int))
            },
            None => if anchor.len() > 0 && find(raw, anchor) is Some {
                let idx = find(raw, anchor)->0;
                (trim_end(raw.subrange(0, idx)) + nl2(), nl2() + raw.subrange(idx, raw.len() as int))
            } else {
                let t = trim_end(raw);
                (if t.len() > 0 { t + nl2() } else { t }, seq!['\n'])
            },
        },
    };
    assert(out =~= x + b + z);
    lemma_contains_middle(x, b, z, m);
}

/// Law: once the block is put in, the integration reads as current.
pub proof fn lemma_setup_leaves_current(raw: Seq<char>, block: Seq<char>)
    requires
        well_marked(block),
        no_dangling_start(raw),
        leading_spaces(trim_end(block)) == 0 || replaced_marker_line_clear(raw),
    ensures
        integration_state(upserted(raw, block, seq![]), block) == ShellIntegrationState::Current,
{
    lemma_upsert_idempotent(raw, block, seq![], seq![]);
}

} // verus!
