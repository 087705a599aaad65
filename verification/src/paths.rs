//! Paths as strings: joining, file names, and the home-directory shorthand.
//!
//! Component-wise prefix tests and parents follow `std::path::Path`; those two
//! calls are made through trusted wrappers whose results are named below.
use vstd::prelude::*;
use crate::text::{
    chars_of, find_char, find_char_from, lemma_find_char_from_props, push_all, slice_chars, string_of,
};

verus! {

// ---------------------------------------------------------------------------
// Trusted std::path calls
// ---------------------------------------------------------------------------

/// What `Path::new(path).strip_prefix(base)` gives, as a lossy string:
/// `None` when `base` is not a component-wise prefix of `path`.
pub uninterp spec fn stripped_path(path: Seq<char>, base: Seq<char>) -> Option<Seq<char>>;

/// What `Path::new(path).parent()` gives, as a lossy string.
pub uninterp spec fn parent_path(path: Seq<char>) -> Option<Seq<char>>;

/// `std::path::Path::strip_prefix`: the rest of `path` after the components
/// of `base`, or `None` when `path` does not start with them. The contract
/// names the result; it claims nothing about how components are compared.
#[verifier::external_body]
pub(crate) fn path_strip_prefix(path: &str, base: &str) -> (r: Option<String>)
    ensures
        r matches Some(s) ==> stripped_path(path@, base@) == Some(s@),
        r is None ==> stripped_path(path@, base@) is None,
{
    std::path::Path::new(path).strip_prefix(base).ok().map(|p| p.to_string_lossy().into_owned())
}

/// `std::path::Path::parent`: `path` without its final component, or `None`
/// for a root or empty path. The contract names the result only.
#[verifier::external_body]
pub(crate) fn path_parent(path: &str) -> (r: Option<String>)
    ensures
        r matches Some(s) ==> parent_path(path@) == Some(s@),
        r is None ==> parent_path(path@) is None,
{
    std::path::Path::new(path).parent().map(|p| p.to_string_lossy().into_owned())
}

/// `Path::starts_with`: `base` is a component-wise prefix of `path` (std
/// defines it as `strip_prefix` succeeding).
pub fn path_starts_with(path: &str, base: &str) -> (r: bool)
    ensures
        r == stripped_path(path@, base@) is Some,
{
    path_strip_prefix(path, base).is_some()
}

// ---------------------------------------------------------------------------
// Joining (`PathBuf::join` on Unix)
// ---------------------------------------------------------------------------

/// `base.join(rel)`: an absolute `rel` replaces `base`; otherwise a `/` is put
/// between them unless `base` is empty or already ends with one.
pub open spec fn join(base: Seq<char>, rel: Seq<char>) -> Seq<char> {
    if rel.len() > 0 && rel[0] == '/' {
        rel
    } else if base.len() > 0 && base.last() != '/' {
        base + seq!['/'] + rel
    } else {
        base + rel
    }
}

pub fn join_chars(base: &[char], rel: &[char]) -> (r: Vec<char>)
    ensures
        r@ == join(base@, rel@),
{
    let mut out: Vec<char> = Vec::new();
    if rel.len() > 0 && rel[0] == '/' {
        push_all(&mut out, rel);
        assert(out@ == rel@);
        return out;
    }
    push_all(&mut out, base);
    if base.len() > 0 && base[base.len() - 1] != '/' {
        out.push('/');
    }
    push_all(&mut out, rel);
    proof {
        assert(Seq::<char>::empty() + base@ == base@);
    }
    out
}

/// `Path::new(base).join(rel)` as a string.
pub fn path_join(base: &str, rel: &str) -> (r: String)
    ensures
        r@ == join(base@, rel@),
{
    let b = chars_of(base);
    let r = chars_of(rel);
    let j = join_chars(b.as_slice(), r.as_slice());
    string_of(j.as_slice())
}

// ---------------------------------------------------------------------------
// File names (`Path::file_name` on Unix)
// ---------------------------------------------------------------------------

/// The `/`-separated parts of `s` from index `from` on that are neither empty
/// nor `.`, the ones that become path components.
pub open spec fn real_parts_from(s: Seq<char>, from: int) -> Seq<Seq<char>>
    decreases s.len() - from,
{
    if from < 0 || from > s.len() {
        seq![]
    } else {
        match find_char_from(s, '/', from) {
            None => keep_part(s.subrange(from, s.len() as int)),
            Some(k) => if from <= k < s.len() {
                keep_part(s.subrange(from, k)) + real_parts_from(s, k + 1)
            } else {
                seq![]
            },
        }
    }
}

pub open spec fn keep_part(p: Seq<char>) -> Seq<Seq<char>> {
    if p.len() == 0 || p == seq!['.'] {
        seq![]
    } else {
        seq![p]
    }
}

/// The last component of `s` when it is a normal name (not `..`, not a root,
/// not `.`): `Path::file_name`.
pub open spec fn file_name(s: Seq<char>) -> Option<Seq<char>> {
    let parts = real_parts_from(s, 0);
    if parts.len() == 0 || parts.last() == seq!['.', '.'] {
        None
    } else {
        Some(parts.last())
    }
}

/// The last component among the parts of `s[from..]`, if any.
pub open spec fn last_part_from(s: Seq<char>, from: int) -> Option<Seq<char>> {
    let parts = real_parts_from(s, from);
    if parts.len() == 0 {
        None
    } else {
        Some(parts.last())
    }
}

proof fn lemma_last_part_step(s: Seq<char>, from: int, k: int)
    requires
        0 <= from <= k < s.len(),
        find_char_from(s, '/', from) == Some(k),
    ensures
        last_part_from(s, from) == (if last_part_from(s, k + 1) is Some {
            last_part_from(s, k + 1)
        } else if keep_part(s.subrange(from, k)).len() > 0 {
            Some(s.subrange(from, k))
        } else {
            None::<Seq<char>>
        }),
{
    let a = keep_part(s.subrange(from, k));
    let b = real_parts_from(s, k + 1);
    assert(real_parts_from(s, from) == a + b);
    if b.len() > 0 {
        assert((a + b).last() == b.last());
    } else {
        assert(a + b == a);
    }
}

/// Whether a `/`-separated part `s[a..b]` becomes a path component.
fn part_is_kept(s: &[char], a: usize, b: usize) -> (keep: bool)
    requires
        a <= b <= s@.len(),
    ensures
        keep == (keep_part(s@.subrange(a as int, b as int)).len() > 0),
{
    let ghost p = s@.subrange(a as int, b as int);
    if b == a {
        return false;
    }
    if b - a == 1 && s[a] == '.' {
        assert(p =~= seq!['.']);
        return false;
    }
    proof {
        if p == seq!['.'] {
            assert(seq!['.'].len() == 1 && seq!['.'][0] == '.');
            assert(p.len() == 1 && p[0] == '.');
            assert(p[0] == s@[a as int]);
        }
    }
    true
}

/// `Path::new(s).file_name()` as a string.
pub fn file_name_of(s: &[char]) -> (r: Option<Vec<char>>)
    ensures
        r matches Some(v) ==> file_name(s@) == Some(v@),
        r is None ==> file_name(s@) is None,
{
    // Walk the parts from the front; the last kept part decides.
    let n = s.len();
    let mut start: usize = 0;
    let mut more = true;
    let mut last: Option<(usize, usize)> = None;
    while more
        invariant
            n == s@.len(),
            more ==> start <= n,
            more ==> last_part_from(s@, 0) == (if last_part_from(s@, start as int) is Some {
                last_part_from(s@, start as int)
            } else {
                match last {
                    Some(p) => Some(s@.subrange(p.0 as int, p.1 as int)),
                    None => None::<Seq<char>>,
                }
            }),
            !more ==> last_part_from(s@, 0) == match last {
                Some(p) => Some(s@.subrange(p.0 as int, p.1 as int)),
                None => None::<Seq<char>>,
            },
            last matches Some(p) ==> p.0 <= p.1 <= n,
        decreases (if more { n + 2 - start } else { 0 }),
    {
        match find_char(s, '/', start) {
            None => {
                proof {
                    assert(real_parts_from(s@, start as int) == keep_part(
                        s@.subrange(start as int, n as int),
                    ));
                }
                if part_is_kept(s, start, n) {
                    last = Some((start, n));
                }
                more = false;
            },
            Some(k) => {
                proof {
                    lemma_find_char_from_props(s@, '/', start as int);
                    lemma_last_part_step(s@, start as int, k as int);
                }
                if part_is_kept(s, start, k) {
                    last = Some((start, k));
                }
                start = k + 1;
            },
        }
    }
    match last {
        None => None,
        Some((a, b)) => {
            let part = slice_chars(s, a, b);
            let dots = part.len() == 2 && part[0] == '.' && part[1] == '.';
            proof {
                if part@ == seq!['.', '.'] {
                    assert(part@[0] == '.' && part@[1] == '.');
                }
                if dots {
                    assert(part@ =~= seq!['.', '.']);
                }
            }
            if dots {
                None
            } else {
                Some(part)
            }
        },
    }
}

// ---------------------------------------------------------------------------
// The home-directory shorthand
// ---------------------------------------------------------------------------

/// How a path is shown once `strip_prefix(home)` has been tried: the rest
/// under `~`, `~` itself for the home directory, or the path unchanged.
pub open spec fn home_display(path: Seq<char>, stripped: Option<Seq<char>>) -> Seq<char> {
    match stripped {
        None => path,
        Some(rest) => if rest.len() == 0 {
            seq!['~']
        } else {
            seq!['~', '/'] + rest
        },
    }
}

/// The path as `shorten_home` shows it for the given `HOME`.
pub open spec fn shortened(path: Seq<char>, home: Option<Seq<char>>) -> Seq<char> {
    match home {
        None => path,
        Some(h) => home_display(path, stripped_path(path, h)),
    }
}

/// Shows a path given the result of stripping the home directory from it.
pub fn display_under_home(path: &str, stripped: Option<&str>) -> (r: String)
    ensures
        r@ == home_display(path@, match stripped {
            Some(s) => Some(s@),
            None => None,
        }),
{
    match stripped {
        None => string_of(chars_of(path).as_slice()),
        Some(rest) => {
            let mut out: Vec<char> = Vec::new();
            out.push('~');
            let rc = chars_of(rest);
            if rc.len() > 0 {
                out.push('/');
                push_all(&mut out, rc.as_slice());
            }
            string_of(out.as_slice())
        },
    }
}

/// `path` with the home directory written as `~`; `home`
/// is the value of `HOME`, if set.
pub fn shorten_home(path: &str, home: Option<&str>) -> (r: String)
    ensures
        r@ == shortened(path@, match home {
            Some(h) => Some(h@),
            None => None,
        }),
{
    match home {
        None => string_of(chars_of(path).as_slice()),
        Some(h) => {
            let stripped = path_strip_prefix(path, h);
            match stripped {
                None => display_under_home(path, None),
                Some(s) => display_under_home(path, Some(s.as_str())),
            }
        },
    }
}

} // verus!
