//! RangeError describes a malformed numeric bound in a selector token.

use vstd::prelude::*;
use vstd::string::StringExecFns;
use crate::error::{ErrorLevel, ErrorType, opt_view, compose_message};

verus! {

/// Which part of a range or single number is malformed.
#[derive(Clone, Copy, PartialEq, Eq, Structural, Debug)]
pub enum RangeErrorKind {
    OutOfRange,
    LeftSideError,
    RightSideError,
    BothSidesError,
    SingleNumberError,
}

/// The name of a range error kind.
pub open spec fn range_kind_name(k: RangeErrorKind) -> Seq<char> {
    match k {
        RangeErrorKind::OutOfRange => "OutOfRange"@,
        RangeErrorKind::LeftSideError => "LeftSideError"@,
        RangeErrorKind::RightSideError => "RightSideError"@,
        RangeErrorKind::BothSidesError => "BothSidesError"@,
        RangeErrorKind::SingleNumberError => "SingleNumberError"@,
    }
}

/// The fixed reason text of a range error kind.
pub open spec fn range_kind_reason(k: RangeErrorKind) -> Seq<char> {
    match k {
        RangeErrorKind::OutOfRange => "the value is out of the range."@,
        RangeErrorKind::LeftSideError => "the left side of the range is missing or not a number."@,
        RangeErrorKind::RightSideError => "the right side of the range is missing or not a number."@,
        RangeErrorKind::BothSidesError => "both sides of the range are missing or not a number."@,
        RangeErrorKind::SingleNumberError => "the single number is missing or not a number."@,
    }
}

impl RangeErrorKind {
    /// The name of this kind.
    pub fn to_string(&self) -> (r: String)
        ensures
            r@ == range_kind_name(*self),
    {
        match self {
            RangeErrorKind::OutOfRange => String::from_str("OutOfRange"),
            RangeErrorKind::LeftSideError => String::from_str("LeftSideError"),
            RangeErrorKind::RightSideError => String::from_str("RightSideError"),
            RangeErrorKind::BothSidesError => String::from_str("BothSidesError"),
            RangeErrorKind::SingleNumberError => String::from_str("SingleNumberError"),
        }
    }

    /// The fixed reason text of this kind.
    pub fn get_reason(&self) -> (r: String)
        ensures
            r@ == range_kind_reason(*self),
    {
        match self {
            RangeErrorKind::OutOfRange => String::from_str("the value is out of the range."),
            RangeErrorKind::LeftSideError => String::from_str(
                "the left side of the range is missing or not a number.",
            ),
            RangeErrorKind::RightSideError => String::from_str(
                "the right side of the range is missing or not a number.",
            ),
            RangeErrorKind::BothSidesError => String::from_str(
                "both sides of the range are missing or not a number.",
            ),
            RangeErrorKind::SingleNumberError => String::from_str(
                "the single number is missing or not a number.",
            ),
        }
    }
}

/// An error in the numeric part of a selector token.
#[derive(Clone, Debug)]
pub struct RangeError {
    pub name: String,
    pub description: String,
    pub level: ErrorLevel,
    pub reason: Option<String>,
    pub error_value: Option<String>,
    pub whole_value: Option<String>,
    pub error_location: Option<(usize, usize)>,
    pub hint: Option<String>,
}

/// The composed causal reason of a `RangeError`: the offending value and
/// the kind's fixed reason text.
pub open spec fn range_reason_text(error_value: Seq<char>, reason: Seq<char>) -> Seq<char> {
    "Error happens in \""@ + error_value + "\", where "@ + reason
}

impl RangeError {
    /// Fields hold together: a raw reason is always accompanied by the
    /// offending value it speaks about.
    pub open spec fn inv(&self) -> bool {
        self.reason is Some ==> self.error_value is Some
    }

    /// Builds a range diagnostic of the given kind for the given value.
    pub fn new(
        error_type: RangeErrorKind,
        error_value: Option<String>,
        whole_value: Option<String>,
        error_location: Option<(usize, usize)>,
    ) -> (r: RangeError)
        requires
            error_value is Some,
        ensures
            r.inv(),
            r.name@ == "RangeError"@,
            r.description@ == range_kind_name(error_type),
            r.level == ErrorLevel::Error,
            opt_view(&r.reason) == Some(range_kind_reason(error_type)),
            opt_view(&r.error_value) == opt_view(&error_value),
            opt_view(&r.whole_value) == opt_view(&whole_value),
            r.error_location == error_location,
            opt_view(&r.hint) == Some("Please check the ragne again."@),
    {
        RangeError {
            name: String::from_str("RangeError"),
            description: error_type.to_string(),
            level: ErrorLevel::Error,
            reason: Some(error_type.get_reason()),
            error_value,
            whole_value,
            error_location,
            hint: Some(String::from_str("Please check the ragne again.")),
        }
    }
}

impl ErrorType for RangeError {
    open spec fn describe_spec(&self) -> Seq<char> {
        self.description@
    }

    open spec fn level_spec(&self) -> ErrorLevel {
        self.level
    }

    open spec fn reason_spec(&self) -> Option<Seq<char>> {
        match self.reason {
            None => None,
            Some(re) => Some(
                range_reason_text(
                    match self.error_value {
                        Some(v) => v@,
                        None => Seq::<char>::empty(),
                    },
                    re@,
                ),
            ),
        }
    }

    open spec fn attempt_spec(&self) -> Option<Seq<char>> {
        None
    }

    open spec fn hint_spec(&self) -> Option<Seq<char>> {
        opt_view(&self.hint)
    }

    open spec fn wf(&self) -> bool {
        self.inv()
    }

    fn describe(&self) -> (r: String) {
        self.description.clone()
    }

    fn level(&self) -> (r: ErrorLevel) {
        self.level
    }

    fn reason(&self) -> (r: Option<String>) {
        match &self.reason {
            None => None,
            Some(re) => {
                let mut text = String::from_str("Error happens in \"");
                match &self.error_value {
                    Some(v) => text.append(v.as_str()),
                    None => vstd::pervasive::unreached(),
                }
                text.append("\", where ");
                text.append(re.as_str());
                Some(text)
            },
        }
    }

    fn attempt(&self) -> (r: Option<String>) {
        None
    }

    fn hint(&self) -> (r: Option<String>) {
        self.hint.clone()
    }

    fn message(&self, showing_level: ErrorLevel) -> (r: String) {
        let attempt = self.attempt();
        let hint = self.hint();
        let reason = self.reason();
        compose_message(self.level, &self.description, &attempt, &hint, &reason, showing_level)
    }
}

} // verus!
