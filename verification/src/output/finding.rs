//! One finding as the shaping lanes read it: the handful of fields ordering, folding and disclosure
//! consult, plus the two path classifications and the by-id verbatim text the host resolves from the
//! rule corpus it carries.
use vstd::prelude::*;

use crate::text::{chars_of, str_eq};

verus! {

/// The fields of one finding the shaping reads. `test_path` and `build_shape` are the host's
/// verdicts of the shared test-path vocabulary and of the two ecosystem build-path shapes on `file`;
/// `bundled_verbatim` is the rule's word-for-word message when the binary carries that rule.
#[derive(Clone)]
pub struct Finding {
    pub rule_id: Option<String>,
    pub severity: Option<String>,
    pub file: Option<String>,
    pub line: Option<i64>,
    pub message: Option<String>,
    pub test_path: bool,
    pub build_shape: bool,
    pub bundled_verbatim: Option<String>,
}

/// `s`, or the empty text when absent.
pub open spec fn text_or_empty(s: Option<String>) -> Seq<char> {
    match s {
        Some(v) => v@,
        None => Seq::empty(),
    }
}

/// `critical` > `warning` > `info` > anything else.
pub open spec fn spec_severity_rank(s: Seq<char>) -> u8 {
    if s == "critical"@ {
        3
    } else if s == "warning"@ {
        2
    } else if s == "info"@ {
        1
    } else {
        0
    }
}

/// The severity ordering both filtering and shaping share; unknown severities rank 0.
pub fn severity_rank(severity: &str) -> (r: u8)
    ensures
        r == spec_severity_rank(severity@),
{
    if str_eq(severity, "critical") {
        3
    } else if str_eq(severity, "warning") {
        2
    } else if str_eq(severity, "info") {
        1
    } else {
        0
    }
}

/// A finding's severity text ("" when absent).
pub open spec fn sev_text(f: Finding) -> Seq<char> {
    text_or_empty(f.severity)
}

/// A finding's severity rank.
pub open spec fn sev_rank(f: Finding) -> u8 {
    spec_severity_rank(sev_text(f))
}

/// Ships: the default role. Never demoted.
pub const ROLE_SHIPPED: u8 = 2;

/// A test path by the shared test-path vocabulary.
pub const ROLE_TEST_PATH: u8 = 1;

/// Build/release surface.
pub const ROLE_BUILD_SURFACE: u8 = 0;

/// `needle` is one of `paths`.
pub open spec fn seq_contains_text(paths: Seq<String>, needle: Seq<char>) -> bool {
    exists|i: int| 0 <= i < paths.len() && (#[trigger] paths[i])@ == needle
}

/// The finding's file is a test path.
pub open spec fn spec_is_test_path(f: Finding) -> bool {
    f.file is Some && f.test_path
}

/// The finding's file is build/release surface: named by the tree's manifest scripts, or one of
/// the fixed build path shapes.
pub open spec fn spec_is_build_surface(f: Finding, build_script_paths: Seq<String>) -> bool {
    match f.file {
        Some(p) => seq_contains_text(build_script_paths, p@) || f.build_shape,
        None => false,
    }
}

/// The finding's deployment role; build surface wins over test path.
pub open spec fn spec_role(f: Finding, build_script_paths: Seq<String>) -> u8 {
    if spec_is_build_surface(f, build_script_paths) {
        ROLE_BUILD_SURFACE
    } else if spec_is_test_path(f) {
        ROLE_TEST_PATH
    } else {
        ROLE_SHIPPED
    }
}

/// Membership of `needle` among `paths`.
pub fn contains_text(paths: &Vec<String>, needle: &str) -> (r: bool)
    ensures
        r == seq_contains_text(paths@, needle@),
{
    let mut i: usize = 0;
    while i < paths.len()
        invariant
            i <= paths@.len(),
            forall|k: int| 0 <= k < i ==> (#[trigger] paths@[k])@ != needle@,
        decreases paths@.len() - i,
    {
        if str_eq(paths[i].as_str(), needle) {
            return true;
        }
        i = i + 1;
    }
    false
}

/// True when the finding's file is a test path.
pub fn is_test_path(f: &Finding) -> (r: bool)
    ensures
        r == spec_is_test_path(*f),
{
    f.file.is_some() && f.test_path
}

/// True when the finding's file is build/release surface.
pub fn is_build_surface(f: &Finding, build_script_paths: &Vec<String>) -> (r: bool)
    ensures
        r == spec_is_build_surface(*f, build_script_paths@),
{
    match &f.file {
        Some(p) => contains_text(build_script_paths, p.as_str()) || f.build_shape,
        None => false,
    }
}

/// The finding's deployment role.
pub fn deployment_role(f: &Finding, build_script_paths: &Vec<String>) -> (r: u8)
    ensures
        r == spec_role(*f, build_script_paths@),
{
    if is_build_surface(f, build_script_paths) {
        ROLE_BUILD_SURFACE
    } else if is_test_path(f) {
        ROLE_TEST_PATH
    } else {
        ROLE_SHIPPED
    }
}

/// The characters of an optional text, empty when absent.
pub fn opt_chars(s: &Option<String>) -> (r: Vec<char>)
    ensures
        r@ == text_or_empty(*s),
{
    match s {
        Some(v) => chars_of(v.as_str()),
        None => Vec::new(),
    }
}

} // verus!
