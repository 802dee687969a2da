//! Conflicts describes two or more selector bindings that contradict
//! each other.

use vstd::prelude::*;
use vstd::string::StringExecFns;
use crate::error::{ErrorLevel, ErrorType, opt_view, compose_message};

verus! {

/// One item of a conflict list, wrapped in double quotes.
pub open spec fn quoted(s: Seq<char>) -> Seq<char> {
    "\""@ + s + "\""@
}

/// The items of a conflict list, quoted and separated by `, `.
pub open spec fn quoted_items(v: Seq<Seq<char>>) -> Seq<char>
    decreases v.len(),
{
    if v.len() == 0 {
        Seq::<char>::empty()
    } else if v.len() == 1 {
        quoted(v[0])
    } else {
        quoted(v[0]) + ", "@ + quoted_items(v.drop_first())
    }
}

/// A conflict list rendered as a bracketed, comma-separated list of
/// quoted items.
pub open spec fn quoted_list(v: Seq<Seq<char>>) -> Seq<char> {
    "["@ + quoted_items(v) + "]"@
}

/// Renders the tail of `v` starting at `from` as quoted, comma-separated
/// items.
fn render_items_from(v: &Vec<String>, from: usize) -> (r: String)
    requires
        from <= v@.len(),
    ensures
        r@ == quoted_items(v.deep_view().skip(from as int)),
    decreases v@.len() - from,
{
    if from == v.len() {
        String::new()
    } else {
        let mut s = String::from_str("\"");
        s.append(v[from].as_str());
        s.append("\"");
        if from + 1 < v.len() {
            s.append(", ");
            let rest = render_items_from(v, from + 1);
            s.append(rest.as_str());
        }
        proof {
            let items = v.deep_view().skip(from as int);
            if items.len() > 1 {
                assert(items.drop_first() =~= v.deep_view().skip(from as int + 1));
            }
            assert(s@ =~= quoted_items(items));
        }
        s
    }
}

/// Renders a conflict list as `["a", "b"]`.
pub fn render_conflict_list(v: &Vec<String>) -> (r: String)
    ensures
        r@ == quoted_list(v.deep_view()),
{
    let mut s = String::from_str("[");
    let items = render_items_from(v, 0);
    s.append(items.as_str());
    s.append("]");
    proof {
        assert(v.deep_view().skip(0) =~= v.deep_view());
        assert(s@ =~= quoted_list(v.deep_view()));
    }
    s
}

/// An error for conflicting selector bindings, carrying the offending
/// fragment, the whole argument, and the list of conflicting items.
#[derive(Clone, Debug)]
pub struct Conflicts {
    pub name: String,
    pub description: String,
    pub level: ErrorLevel,
    pub reason: Option<String>,
    pub error_arg: Option<String>,
    pub whole_arg: Option<String>,
    pub error_location: Option<(usize, usize)>,
    pub hint: Option<String>,
}

/// The causal reason recorded by `Conflicts::new`, depending on which of
/// the offending fragment and the conflict list are present.
pub open spec fn conflicts_reason(
    error_arg: Option<Seq<char>>,
    conflicts_vec: Option<Seq<Seq<char>>>,
) -> Option<Seq<char>> {
    match (error_arg, conflicts_vec) {
        (None, None) => None,
        (Some(ea), None) => Some(ea + " has conflicts in it."@),
        (None, Some(cv)) => Some(quoted_list(cv) + " conflict with each other."@),
        (Some(ea), Some(cv)) => Some(
            "In "@ + ea + ", "@ + quoted_list(cv) + " conflict with each other."@,
        ),
    }
}

impl Conflicts {
    /// Builds a conflict diagnostic. The reason names the offending
    /// fragment and the conflicting items, as far as they are given.
    pub fn new(
        level: ErrorLevel,
        error_arg: Option<String>,
        whole_arg: Option<String>,
        error_location: Option<(usize, usize)>,
        conflicts_vec: Option<Vec<String>>,
    ) -> (r: Conflicts)
        ensures
            r.name@ == "ConflictsError"@,
            r.description@ == "This argument causes conflict(s)."@,
            r.level == level,
            opt_view(&r.reason) == conflicts_reason(
                opt_view(&error_arg),
                match conflicts_vec {
                    Some(cv) => Some(cv.deep_view()),
                    None => None,
                },
            ),
            opt_view(&r.error_arg) == opt_view(&error_arg),
            opt_view(&r.whole_arg) == opt_view(&whole_arg),
            r.error_location == error_location,
            opt_view(&r.hint) == Some("Please check the conflict(s) and try again."@),
    {
        let name = String::from_str("ConflictsError");
        let description = String::from_str("This argument causes conflict(s).");
        let hint = Some(String::from_str("Please check the conflict(s) and try again."));
        let reason: Option<String> = match (&error_arg, &conflicts_vec) {
            (None, None) => None,
            (Some(ea), None) => {
                let mut t = ea.clone();
                t.append(" has conflicts in it.");
                Some(t)
            },
            (None, Some(cv)) => {
                let mut t = render_conflict_list(cv);
                t.append(" conflict with each other.");
                Some(t)
            },
            (Some(ea), Some(cv)) => {
                let mut t = String::from_str("In ");
                t.append(ea.as_str());
                t.append(", ");
                let list = render_conflict_list(cv);
                t.append(list.as_str());
                t.append(" conflict with each other.");
                Some(t)
            },
        };
        Conflicts { name, description, level, reason, error_arg, whole_arg, error_location, hint }
    }
}

impl ErrorType for Conflicts {
    open spec fn describe_spec(&self) -> Seq<char> {
        self.description@
    }

    open spec fn level_spec(&self) -> ErrorLevel {
        self.level
    }

    open spec fn reason_spec(&self) -> Option<Seq<char>> {
        opt_view(&self.reason)
    }

    open spec fn attempt_spec(&self) -> Option<Seq<char>> {
        None
    }

    open spec fn hint_spec(&self) -> Option<Seq<char>> {
        opt_view(&self.hint)
    }

    open spec fn wf(&self) -> bool {
        true
    }

    fn describe(&self) -> (r: String) {
        self.description.clone()
    }

    fn level(&self) -> (r: ErrorLevel) {
        self.level
    }

    fn reason(&self) -> (r: Option<String>) {
        self.reason.clone()
    }

    fn attempt(&self) -> (r: Option<String>) {
        None
    }

    fn hint(&self) -> (r: Option<String>) {
        self.hint.clone()
    }

    fn message(&self, showing_level: ErrorLevel) -> (r: String) {
        let attempt = self.attempt();
        let hint = self.hint();
        let reason = self.reason();
        compose_message(self.level, &self.description, &attempt, &hint, &reason, showing_level)
    }
}

} // verus!
