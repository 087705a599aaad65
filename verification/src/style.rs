//! Terminal colors for the tool's messages.
use vstd::prelude::*;
use crate::text::{chars_of, push_str, string_of};

verus! {

pub const RESET: &'static str = "\x1b[0m";

pub const BOLD: &'static str = "\x1b[1m";

pub const DIM: &'static str = "\x1b[2m";

pub const GREEN: &'static str = "\x1b[32m";

pub const YELLOW: &'static str = "\x1b[33m";

pub const LIGHT_YELLOW: &'static str = "\x1b[93m";

pub const RED: &'static str = "\x1b[31m";

/// Whether messages are colored.
#[derive(Debug, Clone, Copy, PartialEq, Eq, Structural)]
pub struct Style {
    pub enabled: bool,
}

/// `value` wrapped in the given codes and a reset, when colors are on.
pub open spec fn painted(enabled: bool, value: Seq<char>, codes: Seq<char>) -> Seq<char> {
    if enabled {
        codes + value + RESET@
    } else {
        value
    }
}

/// Colors are used on a terminal unless `NO_COLOR` is set.
pub fn color_enabled(no_color_set: bool, is_terminal: bool) -> (r: bool)
    ensures
        r == (!no_color_set && is_terminal),
{
    !no_color_set && is_terminal
}

impl Style {
    /// No colors.
    pub fn plain() -> (r: Self)
        ensures
            !r.enabled,
    {
        Style { enabled: false }
    }

    /// Colors as decided for an output stream.
    pub fn colored(enabled: bool) -> (r: Self)
        ensures
            r.enabled == enabled,
    {
        Style { enabled }
    }

    /// `value` in the given color codes (already joined).
    pub fn paint(&self, value: &str, codes: &str) -> (r: String)
        ensures
            r@ == painted(self.enabled, value@, codes@),
    {
        if !self.enabled {
            return string_of(chars_of(value).as_slice());
        }
        let mut out: Vec<char> = Vec::new();
        push_str(&mut out, codes);
        push_str(&mut out, value);
        push_str(&mut out, RESET);
        string_of(out.as_slice())
    }

    /// The tool's name, in green.
    pub fn brand(&self) -> (r: String)
        ensures
            r@ == painted(self.enabled, "hitch"@, GREEN@),
    {
        self.paint("hitch", GREEN)
    }

    pub fn id(&self, value: &str) -> (r: String)
        ensures
            r@ == painted(self.enabled, value@, GREEN@),
    {
        self.paint(value, GREEN)
    }

    /// A session id shown as `#id`.
    pub fn session_id(&self, value: &str) -> (r: String)
        ensures
            r@ == painted(self.enabled, seq!['#'] + value@, GREEN@),
    {
        let mut v: Vec<char> = Vec::new();
        v.push('#');
        push_str(&mut v, value);
        let s = string_of(v.as_slice());
        self.paint(s.as_str(), GREEN)
    }

    pub fn logo(&self, value: &str) -> (r: String)
        ensures
            r@ == painted(self.enabled, value@, YELLOW@),
    {
        self.paint(value, YELLOW)
    }

    pub fn success(&self, value: &str) -> (r: String)
        ensures
            r@ == painted(self.enabled, value@, GREEN@),
    {
        self.paint(value, GREEN)
    }

    pub fn light_yellow(&self, value: &str) -> (r: String)
        ensures
            r@ == painted(self.enabled, value@, LIGHT_YELLOW@),
    {
        self.paint(value, LIGHT_YELLOW)
    }

    /// Paths are never colored.
    pub fn path(&self, value: &str) -> (r: String)
        ensures
            r@ == value@,
    {
        string_of(chars_of(value).as_slice())
    }

    /// Commands are never colored.
    pub fn command(&self, value: &str) -> (r: String)
        ensures
            r@ == value@,
    {
        string_of(chars_of(value).as_slice())
    }

    pub fn muted(&self, value: &str) -> (r: String)
        ensures
            r@ == painted(self.enabled, value@, DIM@),
    {
        self.paint(value, DIM)
    }

    /// Errors in bold red.
    pub fn error(&self, value: &str) -> (r: String)
        ensures
            r@ == painted(self.enabled, value@, RED@ + BOLD@),
    {
        let mut codes: Vec<char> = Vec::new();
        push_str(&mut codes, RED);
        push_str(&mut codes, BOLD);
        let c = string_of(codes.as_slice());
        self.paint(value, c.as_str())
    }
}

/// Law: without colors every message is its text as it is.
pub proof fn lemma_plain_is_identity(value: Seq<char>, codes: Seq<char>)
    ensures
        painted(false, value, codes) == value,
{
}

} // verus!
