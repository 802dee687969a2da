//! KeywordMissing describes a required keyword (axis, type or color
//! letter) that is absent or garbled.

use vstd::prelude::*;
use vstd::string::StringExecFns;
use crate::error::{ErrorLevel, ErrorType, opt_view, compose_message};

verus! {

/// An error for a missing or garbled keyword.
#[derive(Clone, Debug)]
pub struct KeywordMissing {
    pub name: String,
    pub description: String,
    pub level: ErrorLevel,
    pub reason: Option<String>,
    pub error_arg: Option<String>,
    pub whole_arg: Option<String>,
    pub error_location: Option<(usize, usize)>,
    pub hint: Option<String>,
}

/// The description recorded for a missing keyword.
pub open spec fn keyword_missing_description(keyword: Seq<char>) -> Seq<char> {
    keyword + " is missing or wrong."@
}

/// The causal reason recorded when the offending fragment is known.
pub open spec fn keyword_missing_reason(
    error_arg: Option<Seq<char>>,
    whole_arg: Option<Seq<char>>,
    keyword: Seq<char>,
) -> Option<Seq<char>> {
    match error_arg {
        None => None,
        Some(_) => Some(
            "In "@ + (match whole_arg {
                Some(w) => w,
                None => Seq::<char>::empty(),
            }) + " where "@ + keyword + " is expected."@,
        ),
    }
}

impl KeywordMissing {
    /// Builds a missing-keyword diagnostic for the given keyword.
    pub fn new(
        error_arg: Option<String>,
        whole_arg: Option<String>,
        error_location: Option<(usize, usize)>,
        keyword: String,
    ) -> (r: KeywordMissing)
        requires
            error_arg is Some ==> whole_arg is Some,
        ensures
            r.name@ == "KeywordError"@,
            r.description@ == keyword_missing_description(keyword@),
            r.level == ErrorLevel::Error,
            opt_view(&r.reason) == keyword_missing_reason(
                opt_view(&error_arg),
                opt_view(&whole_arg),
                keyword@,
            ),
            opt_view(&r.error_arg) == opt_view(&error_arg),
            opt_view(&r.whole_arg) == opt_view(&whole_arg),
            r.error_location == error_location,
            opt_view(&r.hint) == Some("Please check the keyword and try again."@),
    {
        let name = String::from_str("KeywordError");
        let mut description = keyword.clone();
        description.append(" is missing or wrong.");
        let hint = Some(String::from_str("Please check the keyword and try again."));
        let level = ErrorLevel::Error;
        let reason: Option<String> = if error_arg.is_none() {
            None
        } else {
            let mut t = String::from_str("In ");
            match &whole_arg {
                Some(w) => t.append(w.as_str()),
                None => vstd::pervasive::unreached(),
            }
            t.append(" where ");
            t.append(keyword.as_str());
            t.append(" is expected.");
            Some(t)
        };
        KeywordMissing {
            name,
            description,
            level,
            reason,
            error_arg,
            whole_arg,
            error_location,
            hint,
        }
    }
}

impl ErrorType for KeywordMissing {
    open spec fn describe_spec(&self) -> Seq<char> {
        self.description@
    }

    open spec fn level_spec(&self) -> ErrorLevel {
        self.level
    }

    open spec fn reason_spec(&self) -> Option<Seq<char>> {
        opt_view(&self.reason)
    }

    open spec fn attempt_spec(&self) -> Option<Seq<char>> {
        None
    }

    open spec fn hint_spec(&self) -> Option<Seq<char>> {
        opt_view(&self.hint)
    }

    open spec fn wf(&self) -> bool {
        true
    }

    fn describe(&self) -> (r: String) {
        self.description.clone()
    }

    fn level(&self) -> (r: ErrorLevel) {
        self.level
    }

    fn reason(&self) -> (r: Option<String>) {
        self.reason.clone()
    }

    fn attempt(&self) -> (r: Option<String>) {
        None
    }

    fn hint(&self) -> (r: Option<String>) {
        self.hint.clone()
    }

    fn message(&self, showing_level: ErrorLevel) -> (r: String) {
        let attempt = self.attempt();
        let hint = self.hint();
        let reason = self.reason();
        compose_message(self.level, &self.description, &attempt, &hint, &reason, showing_level)
    }
}

} // verus!
