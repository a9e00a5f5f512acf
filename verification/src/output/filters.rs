//! Caller-facing findings filters and their validation vocabulary: what the caller asked for, and
//! the one severity ordering both filtering and shaping share.
use vstd::prelude::*;

use super::finding::{severity_rank, spec_severity_rank};
use super::MAX_LIMIT;
use crate::json::{json_quoted, json_string};
use crate::text::{dec, owned, push_str, push_usize};

verus! {

/// Caller-facing filters for a findings list.
#[derive(Debug)]
pub struct FindingFilters {
    /// Minimum severity (`"info"` < `"warning"` < `"critical"`). `None` = no severity filter.
    pub min_severity: Option<String>,
    /// Exact rule id to keep. `None` = all rules.
    pub rule: Option<String>,
    /// List cap. `None` = the default findings cap.
    pub limit: Option<usize>,
}

/// `unknown severity <value> — valid values: ...`, the value spelled as JSON text.
pub open spec fn unknown_severity_json_text(j: Seq<char>) -> Seq<char> {
    "unknown severity "@ + j + " — valid values: \"critical\", \"warning\", \"info\""@
}

/// The rejection text for an unknown severity string, spelled as a JSON string literal.
pub open spec fn unknown_severity_text(s: Seq<char>) -> Seq<char> {
    unknown_severity_json_text(json_quoted(s))
}

/// `limit must be an integer between 0 and <MAX> (got <value>)`, the value spelled as JSON text.
pub open spec fn limit_range_json_text(j: Seq<char>) -> Seq<char> {
    "limit must be an integer between 0 and "@ + dec(MAX_LIMIT as nat) + " (got "@ + j + ")"@
}

/// The rejection text for an out-of-range limit.
pub open spec fn limit_range_text(n: nat) -> Seq<char> {
    limit_range_json_text(dec(n))
}

/// `` `rule` must be a string (got <value>) ``, the value spelled as JSON text.
pub open spec fn rule_type_text(j: Seq<char>) -> Seq<char> {
    "`rule` must be a string (got "@ + j + ")"@
}

/// One tool argument as the filters read it: its text when it is a string, its value when it is
/// an integer written as one, and its JSON spelling (which every rejection quotes).
pub struct ArgValue {
    pub text: Option<String>,
    pub integer: Option<i64>,
    pub json: String,
}

/// The three shared findings arguments of a tool call; each `None` when absent or `null`.
pub struct ToolArgs {
    pub severity: Option<ArgValue>,
    pub rule: Option<ArgValue>,
    pub limit: Option<ArgValue>,
}

/// Whether a severity argument is acceptable: a string the severity order ranks.
pub open spec fn severity_ok(v: Option<ArgValue>) -> bool {
    match v {
        Some(a) => match a.text {
            Some(t) => spec_severity_rank(t@) != 0,
            None => false,
        },
        None => true,
    }
}

/// Whether a rule argument is acceptable: absent or a string.
pub open spec fn rule_ok(v: Option<ArgValue>) -> bool {
    match v {
        Some(a) => a.text is Some,
        None => true,
    }
}

/// Whether a limit argument is acceptable: absent, or an integer within `[0, MAX]`.
pub open spec fn limit_ok(v: Option<ArgValue>) -> bool {
    match v {
        Some(a) => match a.integer {
            Some(n) => 0 <= n <= MAX_LIMIT,
            None => false,
        },
        None => true,
    }
}

/// The filter value an acceptable argument carries.
pub open spec fn arg_text(v: Option<ArgValue>) -> Option<Seq<char>> {
    match v {
        Some(a) => match a.text {
            Some(t) => Some(t@),
            None => None,
        },
        None => None,
    }
}

/// The JSON spelling of a present argument.
pub open spec fn arg_json(v: Option<ArgValue>) -> Seq<char> {
    match v {
        Some(a) => a.json@,
        None => Seq::empty(),
    }
}

/// The view of an optional text.
pub open spec fn opt_view(o: Option<String>) -> Option<Seq<char>> {
    match o {
        Some(s) => Some(s@),
        None => None,
    }
}

/// What `from_args` gives: the first rejection in the order severity, rule, limit, or the
/// filters the arguments carry.
pub open spec fn from_args_result(args: Option<ToolArgs>, r: Result<FindingFilters, String>) -> bool {
    let sev = match args { Some(a) => a.severity, None => None };
    let rule = match args { Some(a) => a.rule, None => None };
    let limit = match args { Some(a) => a.limit, None => None };
    if !severity_ok(sev) {
        r matches Err(e) && e@ == unknown_severity_json_text(arg_json(sev))
    } else if !rule_ok(rule) {
        r matches Err(e) && e@ == rule_type_text(arg_json(rule))
    } else if !limit_ok(limit) {
        r matches Err(e) && e@ == limit_range_json_text(arg_json(limit))
    } else {
        r matches Ok(f) && opt_view(f.min_severity) == arg_text(sev) && opt_view(f.rule) == arg_text(rule)
            && f.limit == match limit {
                Some(a) => Some(a.integer.unwrap() as usize),
                None => None,
            }
    }
}

/// The rejection message for an unknown severity value.
pub fn unknown_severity_error(severity: &str) -> (r: String)
    ensures
        r@ == unknown_severity_text(severity@),
{
    let mut out = owned("unknown severity ");
    let quoted = json_string(severity);
    push_str(&mut out, quoted.as_str());
    push_str(&mut out, " — valid values: \"critical\", \"warning\", \"info\"");
    out
}

/// The rejection message for an out-of-range limit.
pub fn limit_range_error(n: usize) -> (r: String)
    ensures
        r@ == limit_range_text(n as nat),
{
    let mut out = owned("limit must be an integer between 0 and ");
    push_usize(&mut out, MAX_LIMIT);
    push_str(&mut out, " (got ");
    push_usize(&mut out, n);
    push_str(&mut out, ")");
    out
}

/// The view of an optional borrowed text.
pub open spec fn str_view(o: Option<&str>) -> Option<Seq<char>> {
    match o {
        Some(s) => Some(s@),
        None => None,
    }
}

/// What `new` gives: an unknown severity is rejected first, then a limit over the maximum, and
/// otherwise the filters hold exactly the values given.
pub open spec fn new_result(
    sev: Option<Seq<char>>,
    rule: Option<Seq<char>>,
    limit: Option<usize>,
    r: Result<FindingFilters, String>,
) -> bool {
    let sev_ok = match sev {
        Some(s) => spec_severity_rank(s) != 0,
        None => true,
    };
    let limit_ok = match limit {
        Some(n) => n <= MAX_LIMIT,
        None => true,
    };
    if !sev_ok {
        r matches Err(e) && e@ == unknown_severity_text(sev->0)
    } else if !limit_ok {
        r matches Err(e) && e@ == limit_range_text(limit->0 as nat)
    } else {
        r matches Ok(f) && opt_view(f.min_severity) == sev && opt_view(f.rule) == rule && f.limit == limit
    }
}

/// `a` is the JSON spelling of the text `s`: absent for absent, else a string.
pub open spec fn spelled_as_text(a: Option<ArgValue>, s: Option<Seq<char>>) -> bool {
    match (a, s) {
        (None, None) => true,
        (Some(v), Some(t)) => v.text matches Some(x) && x@ == t && v.json@ == json_quoted(t),
        _ => false,
    }
}

/// `a` is the JSON spelling of the count `n`: absent for absent, else an integer.
pub open spec fn spelled_as_integer(a: Option<ArgValue>, n: Option<usize>) -> bool {
    match (a, n) {
        (None, None) => true,
        (Some(v), Some(k)) => k <= i64::MAX && v.integer == Some(k as i64) && v.json@ == dec(k as nat),
        _ => false,
    }
}

/// Two constructor outcomes are the same: the same filters, or the same rejection text.
pub open spec fn same_outcome(r1: Result<FindingFilters, String>, r2: Result<FindingFilters, String>) -> bool {
    match (r1, r2) {
        (Ok(a), Ok(b)) => opt_view(a.min_severity) == opt_view(b.min_severity) && opt_view(a.rule) == opt_view(
            b.rule,
        ) && a.limit == b.limit,
        (Err(x), Err(y)) => x@ == y@,
        _ => false,
    }
}

/// The two constructors share one validation vocabulary: handed the same severity, rule and
/// limit (the JSON lane as a string, a string and an integer), they accept exactly the same
/// values, build the same filters, and reject with the same message.
pub proof fn law_constructors_agree(
    sev: Option<Seq<char>>,
    rule: Option<Seq<char>>,
    limit: Option<usize>,
    args: ToolArgs,
    r1: Result<FindingFilters, String>,
    r2: Result<FindingFilters, String>,
)
    requires
        spelled_as_text(args.severity, sev),
        spelled_as_text(args.rule, rule),
        spelled_as_integer(args.limit, limit),
        new_result(sev, rule, limit, r1),
        from_args_result(Some(args), r2),
    ensures
        same_outcome(r1, r2),
{
}

/// Builds a rejection text: `head`, the JSON spelling, `tail`.
fn quoted_error(head: &str, json: &str, tail: &str) -> (r: String)
    ensures
        r@ == head@ + json@ + tail@,
{
    let mut out = owned(head);
    push_str(&mut out, json);
    push_str(&mut out, tail);
    out
}

/// Copies an optional text.
fn copy_text(o: &Option<String>) -> (r: Option<String>)
    ensures
        opt_view(r) == opt_view(*o),
{
    match o {
        Some(s) => Some(owned(s.as_str())),
        None => None,
    }
}

impl FindingFilters {
    /// Wire-neutral constructor: already-parsed values in, the shared validation applied. An
    /// unrecognized severity and a limit above the maximum are named errors, the severity checked
    /// first.
    pub fn new(min_severity: Option<&str>, rule: Option<&str>, limit: Option<usize>) -> (r: Result<
        FindingFilters,
        String,
    >)
        ensures
            new_result(str_view(min_severity), str_view(rule), limit, r),
    {
        if let Some(severity) = min_severity {
            if severity_rank(severity) == 0 {
                return Err(unknown_severity_error(severity));
            }
        }
        if let Some(n) = limit {
            if n > MAX_LIMIT {
                return Err(limit_range_error(n));
            }
        }
        let min_severity = match min_severity {
            Some(s) => Some(owned(s)),
            None => None,
        };
        let rule = match rule {
            Some(s) => Some(owned(s)),
            None => None,
        };
        Ok(FindingFilters { min_severity, rule, limit })
    }

    /// The JSON front door onto [`new`](Self::new): reads the shared `severity`/`rule`/`limit`
    /// arguments of a tool call. A value of the wrong type is a named rejection, never a silent
    /// "not provided": a non-string severity is rejected like an unknown one, a non-string rule is
    /// a type error, and a limit must be an integer within range.
    pub fn from_args(args: Option<&ToolArgs>) -> (r: Result<FindingFilters, String>)
        ensures
            from_args_result(
                match args {
                    Some(a) => Some(*a),
                    None => None,
                },
                r,
            ),
    {
        let empty = ToolArgs { severity: None, rule: None, limit: None };
        let a: &ToolArgs = match args {
            Some(a) => a,
            None => &empty,
        };
        let min_severity = match &a.severity {
            None => None,
            Some(v) => {
                let ranked = match &v.text {
                    Some(t) => severity_rank(t.as_str()) != 0,
                    None => false,
                };
                if !ranked {
                    return Err(quoted_error("unknown severity ", v.json.as_str(), " — valid values: \"critical\", \"warning\", \"info\""));
                }
                copy_text(&v.text)
            },
        };
        let rule = match &a.rule {
            None => None,
            Some(v) => match &v.text {
                Some(t) => Some(owned(t.as_str())),
                None => {
                    return Err(quoted_error("`rule` must be a string (got ", v.json.as_str(), ")"));
                },
            },
        };
        let limit = match &a.limit {
            None => None,
            Some(v) => match v.integer {
                Some(n) if 0 <= n && n <= MAX_LIMIT as i64 => Some(n as usize),
                _ => {
                    let mut head = owned("limit must be an integer between 0 and ");
                    push_usize(&mut head, MAX_LIMIT);
                    push_str(&mut head, " (got ");
                    return Err(quoted_error(head.as_str(), v.json.as_str(), ")"));
                },
            },
        };
        Ok(FindingFilters { min_severity, rule, limit })
    }
}

} // verus!
