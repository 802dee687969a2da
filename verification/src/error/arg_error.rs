//! ArgError describes an error in a selector expression or other argument.

use vstd::prelude::*;
use vstd::string::StringExecFns;
use crate::error::{ErrorLevel, ErrorType, opt_view, compose_message};

verus! {

/// The kind of an argument error, determining its name, description,
/// default hint and severity.
#[derive(Clone, Copy, PartialEq, Eq, Structural, Debug)]
pub enum ArgErrorKind {
    NoImplementation,
    WrongFormat,
    Conflicts,
    FormatError,
}

/// The name of an argument error kind.
pub open spec fn kind_name(k: ArgErrorKind) -> Seq<char> {
    match k {
        ArgErrorKind::NoImplementation => "NoImplementation"@,
        ArgErrorKind::WrongFormat => "WrongFormat"@,
        ArgErrorKind::Conflicts => "Conflicts"@,
        ArgErrorKind::FormatError => "FormatError"@,
    }
}

/// The fixed description of an argument error kind.
pub open spec fn kind_description(k: ArgErrorKind) -> Seq<char> {
    match k {
        ArgErrorKind::NoImplementation => "This argument is not implemented fully."@,
        ArgErrorKind::WrongFormat => "The format of this argument is wrong."@,
        ArgErrorKind::Conflicts => "This argument causes conflict(s)"@,
        ArgErrorKind::FormatError => "This file format is unsupported."@,
    }
}

/// The default hint of an argument error kind.
pub open spec fn kind_hint(k: ArgErrorKind) -> Seq<char> {
    match k {
        ArgErrorKind::NoImplementation => "Please wait for the next version."@,
        ArgErrorKind::WrongFormat => "Please check the format of this argument."@,
        ArgErrorKind::Conflicts => "Please check the reason."@,
        ArgErrorKind::FormatError => "Please check the format of the file."@,
    }
}

/// The severity of an argument error kind.
pub open spec fn kind_level(k: ArgErrorKind) -> ErrorLevel {
    match k {
        ArgErrorKind::NoImplementation => ErrorLevel::Warning,
        ArgErrorKind::WrongFormat => ErrorLevel::Error,
        ArgErrorKind::Conflicts => ErrorLevel::Error,
        ArgErrorKind::FormatError => ErrorLevel::Error,
    }
}

impl ArgErrorKind {
    /// The name of this kind.
    pub fn to_string(&self) -> (r: String)
        ensures
            r@ == kind_name(*self),
    {
        match self {
            ArgErrorKind::NoImplementation => String::from_str("NoImplementation"),
            ArgErrorKind::WrongFormat => String::from_str("WrongFormat"),
            ArgErrorKind::Conflicts => String::from_str("Conflicts"),
            ArgErrorKind::FormatError => String::from_str("FormatError"),
        }
    }

    /// The fixed description of this kind.
    pub fn get_description(&self) -> (r: String)
        ensures
            r@ == kind_description(*self),
    {
        match self {
            ArgErrorKind::NoImplementation => String::from_str(
                "This argument is not implemented fully.",
            ),
            ArgErrorKind::WrongFormat => String::from_str("The format of this argument is wrong."),
            ArgErrorKind::Conflicts => String::from_str("This argument causes conflict(s)"),
            ArgErrorKind::FormatError => String::from_str("This file format is unsupported."),
        }
    }

    /// The default hint of this kind; always present.
    pub fn get_hint(&self) -> (r: Option<String>)
        ensures
            opt_view(&r) == Some(kind_hint(*self)),
    {
        match self {
            ArgErrorKind::NoImplementation => Some(
                String::from_str("Please wait for the next version."),
            ),
            ArgErrorKind::WrongFormat => Some(
                String::from_str("Please check the format of this argument."),
            ),
            ArgErrorKind::Conflicts => Some(String::from_str("Please check the reason.")),
            ArgErrorKind::FormatError => Some(
                String::from_str("Please check the format of the file."),
            ),
        }
    }

    /// The severity of this kind.
    pub fn get_level(&self) -> (r: ErrorLevel)
        ensures
            r == kind_level(*self),
    {
        match self {
            ArgErrorKind::NoImplementation => ErrorLevel::Warning,
            ArgErrorKind::WrongFormat => ErrorLevel::Error,
            ArgErrorKind::Conflicts => ErrorLevel::Error,
            ArgErrorKind::FormatError => ErrorLevel::Error,
        }
    }
}

/// An error in a commandline argument, carrying the offending fragment, the
/// whole argument, a byte-offset span, and optional context texts.
#[derive(Clone, Debug)]
pub struct ArgError {
    pub name: String,
    pub description: String,
    pub level: ErrorLevel,
    pub reason: Option<String>,
    pub error_arg: Option<String>,
    pub whole_arg: Option<String>,
    pub error_location: Option<(usize, usize)>,
    pub hint: Option<String>,
}

/// The composed causal reason of an `ArgError`: the whole argument, the
/// offending fragment if present, and the raw reason text.
pub open spec fn arg_reason_text(
    whole: Seq<char>,
    error_arg: Option<Seq<char>>,
    reason: Seq<char>,
) -> Seq<char> {
    "Error happens in \""@ + whole + "\", where"@ + (match error_arg {
        Some(ea) => " \""@ + ea + "\" "@,
        None => Seq::<char>::empty(),
    }) + reason
}

impl ArgError {
    /// Fields hold together: a raw reason is always accompanied by the
    /// whole argument it speaks about.
    pub open spec fn inv(&self) -> bool {
        self.reason is Some ==> self.whole_arg is Some
    }

    /// Builds an `ArgError` of the given kind. The name, description,
    /// severity come from the kind; the hint is the kind's default one
    /// whenever a hint is supplied, and absent otherwise.
    pub fn new(
        error_type: ArgErrorKind,
        reason: Option<String>,
        error_arg: Option<String>,
        whole_arg: Option<String>,
        error_location: Option<(usize, usize)>,
        hint: Option<String>,
    ) -> (r: ArgError)
        requires
            reason is Some ==> whole_arg is Some,
        ensures
            r.inv(),
            r.name@ == kind_name(error_type),
            r.description@ == kind_description(error_type),
            r.level == kind_level(error_type),
            opt_view(&r.reason) == opt_view(&reason),
            opt_view(&r.error_arg) == opt_view(&error_arg),
            opt_view(&r.whole_arg) == opt_view(&whole_arg),
            r.error_location == error_location,
            opt_view(&r.hint) == (if hint is Some {
                Some(kind_hint(error_type))
            } else {
                None::<Seq<char>>
            }),
    {
        let name = error_type.to_string();
        let description = error_type.get_description();
        let hint_default = error_type.get_hint();
        let level = error_type.get_level();
        ArgError {
            name,
            description,
            level,
            reason,
            error_arg,
            whole_arg,
            error_location,
            hint: if hint.is_none() {
                hint
            } else {
                hint_default
            },
        }
    }
}

impl ErrorType for ArgError {
    open spec fn describe_spec(&self) -> Seq<char> {
        self.description@
    }

    open spec fn level_spec(&self) -> ErrorLevel {
        self.level
    }

    open spec fn reason_spec(&self) -> Option<Seq<char>> {
        match self.reason {
            None => None,
            Some(re) => Some(
                arg_reason_text(
                    match self.whole_arg {
                        Some(w) => w@,
                        None => Seq::<char>::empty(),
                    },
                    opt_view(&self.error_arg),
                    re@,
                ),
            ),
        }
    }

    open spec fn attempt_spec(&self) -> Option<Seq<char>> {
        None
    }

    open spec fn hint_spec(&self) -> Option<Seq<char>> {
        opt_view(&self.hint)
    }

    open spec fn wf(&self) -> bool {
        self.inv()
    }

    fn describe(&self) -> (r: String) {
        self.description.clone()
    }

    fn level(&self) -> (r: ErrorLevel) {
        self.level
    }

    fn reason(&self) -> (r: Option<String>) {
        match &self.reason {
            None => None,
            Some(re) => {
                let mut text = String::from_str("Error happens in \"");
                match &self.whole_arg {
                    Some(w) => text.append(w.as_str()),
                    None => vstd::pervasive::unreached(),
                }
                text.append("\", where");
                match &self.error_arg {
                    Some(ea) => {
                        text.append(" \"");
                        text.append(ea.as_str());
                        text.append("\" ");
                    },
                    None => {},
                }
                text.append(re.as_str());
                Some(text)
            },
        }
    }

    fn attempt(&self) -> (r: Option<String>) {
        None
    }

    fn hint(&self) -> (r: Option<String>) {
        self.hint.clone()
    }

    fn message(&self, showing_level: ErrorLevel) -> (r: String) {
        let attempt = self.attempt();
        let hint = self.hint();
        let reason = self.reason();
        compose_message(self.level, &self.description, &attempt, &hint, &reason, showing_level)
    }
}

} // verus!
