//! Error taxonomy: structured, severity-tagged diagnostics.
//!
//! Every diagnostic of this library carries a severity, a description, and
//! optional free-text context (reason, attempt, hint). A diagnostic renders
//! to a human-readable message only when its severity reaches the
//! caller-supplied visibility threshold; below the threshold the rendering
//! is the empty string.

pub mod arg_error;
pub mod conflicts;
pub mod keyword_missing;
pub mod range_error;

use vstd::prelude::*;
use vstd::string::StringExecFns;

verus! {

/// Severity of a diagnostic. `Warning < Error < Fatal`.
#[derive(Clone, Copy, PartialEq, Eq, Structural, Debug)]
pub enum ErrorLevel {
    /// Error that can be ignored or fixed automatically
    Warning,
    /// Error that can be fixed by the user, e.g. recall the command
    Error,
    /// Error caused by unrecoverable reasons, e.g. file not found
    Fatal,
}

/// Numeric rank of a severity, for comparisons.
pub open spec fn level_rank(l: ErrorLevel) -> int {
    match l {
        ErrorLevel::Warning => 0,
        ErrorLevel::Error => 1,
        ErrorLevel::Fatal => 2,
    }
}

/// The bracketed tag that opens every rendered message of this severity.
pub open spec fn level_tag(l: ErrorLevel) -> Seq<char> {
    match l {
        ErrorLevel::Warning => "[Warning]"@,
        ErrorLevel::Error => "[Error]"@,
        ErrorLevel::Fatal => "[Fatal]"@,
    }
}

impl ErrorLevel {
    /// True when `self` is at least as severe as `other`.
    pub fn at_least(&self, other: &ErrorLevel) -> (r: bool)
        ensures
            r == (level_rank(*self) >= level_rank(*other)),
    {
        let a: u8 = match self {
            ErrorLevel::Warning => 0,
            ErrorLevel::Error => 1,
            ErrorLevel::Fatal => 2,
        };
        let b: u8 = match other {
            ErrorLevel::Warning => 0,
            ErrorLevel::Error => 1,
            ErrorLevel::Fatal => 2,
        };
        a >= b
    }

    /// The bracketed severity tag, e.g. `[Error]`.
    pub fn to_string(&self) -> (r: String)
        ensures
            r@ == level_tag(*self),
    {
        match self {
            ErrorLevel::Warning => String::from_str("[Warning]"),
            ErrorLevel::Error => String::from_str("[Error]"),
            ErrorLevel::Fatal => String::from_str("[Fatal]"),
        }
    }
}

/// View of an `Option<String>` as an optional character sequence.
pub open spec fn opt_view(o: &Option<String>) -> Option<Seq<char>> {
    match o {
        Some(s) => Some(s@),
        None => None,
    }
}

/// The block appended for an attempt the program has already taken.
pub open spec fn attempt_block(attempt: Option<Seq<char>>) -> Seq<char> {
    match attempt {
        Some(a) => "\nProgram has tried this(these) attempt to fix this error:\n\t "@ + a,
        None => Seq::<char>::empty(),
    }
}

/// The block appended for a hint on how the user may fix the error.
pub open spec fn hint_block(hint: Option<Seq<char>>) -> Seq<char> {
    match hint {
        Some(h) => "\nYou may try the following method(s) to fix this:\n\t "@ + h + " "@,
        None => Seq::<char>::empty(),
    }
}

/// The block appended for the causal reason of the error.
pub open spec fn reason_block(reason: Option<Seq<char>>) -> Seq<char> {
    match reason {
        Some(c) => "\nThis error is caused by the following reason(s):\n "@ + c,
        None => Seq::<char>::empty(),
    }
}

/// The full message text, before the severity gate is applied.
pub open spec fn message_body(
    level: ErrorLevel,
    describe: Seq<char>,
    attempt: Option<Seq<char>>,
    hint: Option<Seq<char>>,
    reason: Option<Seq<char>>,
) -> Seq<char> {
    level_tag(level) + describe + attempt_block(attempt) + hint_block(hint) + reason_block(reason)
}

/// What a diagnostic renders to: its full message when its severity reaches
/// the visibility threshold, and the empty string otherwise.
pub open spec fn message_spec(
    level: ErrorLevel,
    describe: Seq<char>,
    attempt: Option<Seq<char>>,
    hint: Option<Seq<char>>,
    reason: Option<Seq<char>>,
    showing: ErrorLevel,
) -> Seq<char> {
    if level_rank(level) >= level_rank(showing) {
        message_body(level, describe, attempt, hint, reason)
    } else {
        Seq::<char>::empty()
    }
}

/// Assembles the message text of a diagnostic from its parts: severity tag,
/// description, then the attempt, hint and reason blocks, gated by the
/// visibility threshold.
pub fn compose_message(
    level: ErrorLevel,
    describe: &String,
    attempt: &Option<String>,
    hint: &Option<String>,
    reason: &Option<String>,
    showing: ErrorLevel,
) -> (r: String)
    ensures
        r@ == message_spec(level, describe@, opt_view(attempt), opt_view(hint), opt_view(reason), showing),
{
    let mut m = level.to_string();
    m.append(describe.as_str());
    match attempt {
        Some(a) => {
            m.append("\nProgram has tried this(these) attempt to fix this error:\n\t ");
            m.append(a.as_str());
        },
        None => {},
    }
    match hint {
        Some(h) => {
            m.append("\nYou may try the following method(s) to fix this:\n\t ");
            m.append(h.as_str());
            m.append(" ");
        },
        None => {},
    }
    match reason {
        Some(c) => {
            m.append("\nThis error is caused by the following reason(s):\n ");
            m.append(c.as_str());
        },
        None => {},
    }
    if level.at_least(&showing) {
        m
    } else {
        String::new()
    }
}

/// Common interface of the diagnostics of this library. Each implementation
/// exposes its parts through spec functions, and the executable accessors
/// are pinned to those spec functions.
pub trait ErrorType {
    /// The general description of this error.
    spec fn describe_spec(&self) -> Seq<char>;

    /// The severity of this error.
    spec fn level_spec(&self) -> ErrorLevel;

    /// The specific causal reason of this error, if any.
    spec fn reason_spec(&self) -> Option<Seq<char>>;

    /// The attempt the program has already taken to fix this error, if any.
    spec fn attempt_spec(&self) -> Option<Seq<char>>;

    /// The hint for the user to fix this error, if any.
    spec fn hint_spec(&self) -> Option<Seq<char>>;

    /// Well-formedness of the diagnostic's fields; accessors may rely on it.
    spec fn wf(&self) -> bool;

    /// Get the general description of this error.
    fn describe(&self) -> (r: String)
        requires
            self.wf(),
        ensures
            r@ == self.describe_spec(),
    ;

    /// Get the level of this error.
    fn level(&self) -> (r: ErrorLevel)
        requires
            self.wf(),
        ensures
            r == self.level_spec(),
    ;

    /// Get the specific reason of this error.
    fn reason(&self) -> (r: Option<String>)
        requires
            self.wf(),
        ensures
            opt_view(&r) == self.reason_spec(),
    ;

    /// Get the attempt that the program has already taken to fix this error.
    fn attempt(&self) -> (r: Option<String>)
        requires
            self.wf(),
        ensures
            opt_view(&r) == self.attempt_spec(),
    ;

    /// Get the hint for the user to fix this error.
    fn hint(&self) -> (r: Option<String>)
        requires
            self.wf(),
        ensures
            opt_view(&r) == self.hint_spec(),
    ;

    /// Get the message to show on the screen: empty when the severity is
    /// below `showing_level`.
    fn message(&self, showing_level: ErrorLevel) -> (r: String)
        requires
            self.wf(),
        ensures
            r@ == message_spec(
                self.level_spec(),
                self.describe_spec(),
                self.attempt_spec(),
                self.hint_spec(),
                self.reason_spec(),
                showing_level,
            ),
    ;
}

} // verus!
