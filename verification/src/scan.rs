//! The scan state machine: one left-to-right pass over a byte span that tells
//! string literals, line comments and block comments from structural text.
//!
//! The block locator and the entry scanner both drive this machine, so they
//! agree on which bytes are structural.

use crate::bytes::{BACKSLASH, CLOSE_BRACE, NEWLINE, OPEN_BRACE, QUOTE, SLASH, STAR};
use vstd::prelude::*;

verus! {

/// The four mutually exclusive modes of the scanner.
#[derive(Clone, Copy, PartialEq, Eq, Debug, Structural)]
pub enum Mode {
    Normal,
    InString,
    InLineComment,
    InBlockComment,
}

/// The scanner's whole state: its mode, and the escape flag that says the
/// previous byte of a string was an unescaped backslash.
#[derive(Clone, Copy, PartialEq, Eq, Debug, Structural)]
pub struct ScanState {
    pub mode: Mode,
    pub escape: bool,
}

/// What a step reports to the caller.
#[derive(Clone, Copy, PartialEq, Eq, Debug, Structural)]
pub enum Token {
    /// Nothing the caller needs to act on.
    Inert,
    /// A `{` in normal mode.
    OpenBrace,
    /// A `}` in normal mode.
    CloseBrace,
    /// A `"` in normal mode: a string literal opens here.
    StringOpen,
}

/// The outcome of one step: the state to continue in, how many bytes the step
/// consumed (one or two), and the token it reports.
#[derive(Clone, Copy, PartialEq, Eq, Debug, Structural)]
pub struct Step {
    pub next: ScanState,
    pub width: usize,
    pub token: Token,
}

impl ScanState {
    /// The state in which every scan begins.
    pub open spec fn initial() -> ScanState {
        ScanState { mode: Mode::Normal, escape: false }
    }

    /// The escape flag is meaningful only inside a string.
    pub open spec fn wf(self) -> bool {
        self.escape ==> self.mode == Mode::InString
    }

    /// The state in which every scan begins.
    pub fn start() -> (st: ScanState)
        ensures
            st == ScanState::initial(),
    {
        ScanState { mode: Mode::Normal, escape: false }
    }
}

/// The two bytes at `at` are `first` followed by `second`.
pub open spec fn pair_at(s: Seq<u8>, at: int, first: u8, second: u8) -> bool {
    at + 1 < s.len() && s[at] == first && s[at + 1] == second
}

/// The transition function of the scanner, for the byte at `at`.
pub open spec fn step(s: Seq<u8>, at: int, st: ScanState) -> Step
    recommends
        0 <= at < s.len(),
{
    let stay = Step { next: st, width: 1, token: Token::Inert };
    let normal = ScanState { mode: Mode::Normal, escape: false };
    match st.mode {
        Mode::InLineComment => if s[at] == NEWLINE {
            Step { next: normal, width: 1, token: Token::Inert }
        } else {
            stay
        },
        Mode::InBlockComment => if pair_at(s, at, STAR, SLASH) {
            Step { next: normal, width: 2, token: Token::Inert }
        } else {
            stay
        },
        Mode::InString => if st.escape {
            Step {
                next: ScanState { mode: Mode::InString, escape: false },
                width: 1,
                token: Token::Inert,
            }
        } else if s[at] == BACKSLASH {
            Step {
                next: ScanState { mode: Mode::InString, escape: true },
                width: 1,
                token: Token::Inert,
            }
        } else if s[at] == QUOTE {
            Step { next: normal, width: 1, token: Token::Inert }
        } else {
            stay
        },
        Mode::Normal => if s[at] == QUOTE {
            Step {
                next: ScanState { mode: Mode::InString, escape: false },
                width: 1,
                token: Token::StringOpen,
            }
        } else if pair_at(s, at, SLASH, SLASH) {
            Step {
                next: ScanState { mode: Mode::InLineComment, escape: false },
                width: 2,
                token: Token::Inert,
            }
        } else if pair_at(s, at, SLASH, STAR) {
            Step {
                next: ScanState { mode: Mode::InBlockComment, escape: false },
                width: 2,
                token: Token::Inert,
            }
        } else if s[at] == OPEN_BRACE {
            Step { next: normal, width: 1, token: Token::OpenBrace }
        } else if s[at] == CLOSE_BRACE {
            Step { next: normal, width: 1, token: Token::CloseBrace }
        } else {
            Step { next: normal, width: 1, token: Token::Inert }
        },
    }
}

/// A step consumes one or two bytes, never runs past the end of the span,
/// keeps the state well formed, and reports a token only from normal mode.
pub proof fn lemma_step_basics(s: Seq<u8>, at: int, st: ScanState)
    requires
        0 <= at < s.len(),
    ensures
        1 <= step(s, at, st).width <= 2,
        at + step(s, at, st).width <= s.len(),
        st.wf() ==> step(s, at, st).next.wf(),
        step(s, at, st).token != Token::Inert ==> st.mode == Mode::Normal && step(
            s,
            at,
            st,
        ).width == 1,
        step(s, at, st).token == Token::OpenBrace ==> s[at] == OPEN_BRACE,
        step(s, at, st).token == Token::CloseBrace ==> s[at] == CLOSE_BRACE,
        step(s, at, st).token == Token::StringOpen ==> s[at] == QUOTE,
{
}

/// Performs one step of the scanner on the byte at `at`.
pub fn scan_step(bytes: &[u8], at: usize, st: ScanState) -> (r: Step)
    requires
        at < bytes.len(),
    ensures
        r == step(bytes@, at as int, st),
        1 <= r.width <= 2,
        at + r.width <= bytes.len(),
{
    let ch: u8 = bytes[at];
    let normal = ScanState { mode: Mode::Normal, escape: false };
    match st.mode {
        Mode::InLineComment => {
            if ch == NEWLINE {
                Step { next: normal, width: 1, token: Token::Inert }
            } else {
                Step { next: st, width: 1, token: Token::Inert }
            }
        },
        Mode::InBlockComment => {
            if ch == STAR && at + 1 < bytes.len() && bytes[at + 1] == SLASH {
                Step { next: normal, width: 2, token: Token::Inert }
            } else {
                Step { next: st, width: 1, token: Token::Inert }
            }
        },
        Mode::InString => {
            if st.escape {
                Step {
                    next: ScanState { mode: Mode::InString, escape: false },
                    width: 1,
                    token: Token::Inert,
                }
            } else if ch == BACKSLASH {
                Step {
                    next: ScanState { mode: Mode::InString, escape: true },
                    width: 1,
                    token: Token::Inert,
                }
            } else if ch == QUOTE {
                Step { next: normal, width: 1, token: Token::Inert }
            } else {
                Step { next: st, width: 1, token: Token::Inert }
            }
        },
        Mode::Normal => {
            if ch == QUOTE {
                Step {
                    next: ScanState { mode: Mode::InString, escape: false },
                    width: 1,
                    token: Token::StringOpen,
                }
            } else if ch == SLASH && at + 1 < bytes.len() && bytes[at + 1] == SLASH {
                Step {
                    next: ScanState { mode: Mode::InLineComment, escape: false },
                    width: 2,
                    token: Token::Inert,
                }
            } else if ch == SLASH && at + 1 < bytes.len() && bytes[at + 1] == STAR {
                Step {
                    next: ScanState { mode: Mode::InBlockComment, escape: false },
                    width: 2,
                    token: Token::Inert,
                }
            } else if ch == OPEN_BRACE {
                Step { next: normal, width: 1, token: Token::OpenBrace }
            } else if ch == CLOSE_BRACE {
                Step { next: normal, width: 1, token: Token::CloseBrace }
            } else {
                Step { next: normal, width: 1, token: Token::Inert }
            }
        },
    }
}

} // verus!
