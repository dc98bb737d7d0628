//! The regex engine choice, and the compatibility scan for the alternate
//! engine, which reports constructs that it does not support.

use vstd::prelude::*;
use vstd::string::*;
use crate::text::{chars_of, has_infix, str_eq};

verus! {

/// The selectable regex engines. Matching always runs on PCRE2; choosing
/// Vectorscan adds a compatibility scan of the patterns.
#[derive(Clone, Copy, Debug, PartialEq, Eq, Structural)]
pub enum RegexEngine {
    Pcre2,
    Vectorscan,
}

pub open spec fn engine_name(e: RegexEngine) -> Seq<char> {
    match e {
        RegexEngine::Pcre2 => "pcre2"@,
        RegexEngine::Vectorscan => "vectorscan"@,
    }
}

impl RegexEngine {
    /// Parses an engine name.
    pub fn from_str(value: &str) -> (r: Result<Self, String>)
        ensures
            r is Ok <==> (value@ == "pcre2"@ || value@ == "vectorscan"@),
            r is Ok ==> engine_name(r->Ok_0) == value@,
    {
        if str_eq(value, "pcre2") {
            Ok(RegexEngine::Pcre2)
        } else if str_eq(value, "vectorscan") {
            Ok(RegexEngine::Vectorscan)
        } else {
            let mut message = String::from_str("Unsupported regex engine '");
            message.append(value);
            message.append("'");
            Err(message)
        }
    }

    /// The engine's name.
    pub fn as_str(&self) -> (r: &'static str)
        ensures
            r@ == engine_name(*self),
    {
        match self {
            RegexEngine::Pcre2 => "pcre2",
            RegexEngine::Vectorscan => "vectorscan",
        }
    }
}

/// The diagnostics of the compatibility scan, in order.
pub open spec fn compatibility_issues(p: Seq<char>) -> Seq<Seq<char>> {
    let lookbehind = has_infix(p, "(?<="@) || has_infix(p, "(?<!"@);
    let backref = has_infix(p, "\\1"@) || has_infix(p, "\\2"@) || has_infix(p, "\\3"@) || has_infix(p, "\\4"@)
        || has_infix(p, "\\5"@) || has_infix(p, "\\6"@) || has_infix(p, "\\7"@) || has_infix(p, "\\8"@)
        || has_infix(p, "\\9"@);
    let recursion = has_infix(p, "(?R"@) || has_infix(p, "(?&"@);
    (if lookbehind { seq!["lookbehind assertions are not supported"@] } else { Seq::empty() })
        + (if backref { seq!["backreferences are not supported"@] } else { Seq::empty() })
        + (if recursion { seq!["recursive/subroutine constructs are not supported"@] } else { Seq::empty() })
        + (if has_infix(p, "(?>"@) { seq!["atomic groups may be incompatible"@] } else { Seq::empty() })
        + (if has_infix(p, "(?("@) { seq!["conditional expressions are not supported"@] } else { Seq::empty() })
        + (if has_infix(p, "(?C"@) { seq!["callouts are not supported"@] } else { Seq::empty() })
}

fn pattern_has(p: &Vec<char>, needle: &str) -> (r: bool)
    ensures
        r == has_infix(p@, needle@),
{
    let n = chars_of(needle);
    crate::text::chars_contain(p.as_slice(), n.as_slice())
}

fn push_when(out: &mut Vec<&'static str>, c: bool, issue: &'static str)
    ensures
        final(out)@.map_values(|s: &str| s@) == old(out)@.map_values(|s: &str| s@) + (if c { seq![issue@] } else { Seq::empty() }),
{
    if c {
        out.push(issue);
    }
    assert(out@.map_values(|s: &str| s@) =~= old(out)@.map_values(|s: &str| s@) + (if c { seq![issue@] } else { Seq::empty() }));
}

/// Scans a pattern for constructs that Vectorscan does not support.
pub fn vectorscan_compatibility_issues(pattern: &str) -> (r: Vec<&'static str>)
    ensures
        r@.map_values(|s: &str| s@) == compatibility_issues(pattern@),
{
    let p = chars_of(pattern);
    let mut issues: Vec<&'static str> = Vec::new();
    assert(issues@.map_values(|s: &str| s@) =~= Seq::<Seq<char>>::empty());
    let lookbehind = pattern_has(&p, "(?<=") || pattern_has(&p, "(?<!");
    push_when(&mut issues, lookbehind, "lookbehind assertions are not supported");
    let backref = pattern_has(&p, "\\1") || pattern_has(&p, "\\2") || pattern_has(&p, "\\3") || pattern_has(&p, "\\4")
        || pattern_has(&p, "\\5") || pattern_has(&p, "\\6") || pattern_has(&p, "\\7") || pattern_has(&p, "\\8")
        || pattern_has(&p, "\\9");
    push_when(&mut issues, backref, "backreferences are not supported");
    let recursion = pattern_has(&p, "(?R") || pattern_has(&p, "(?&");
    push_when(&mut issues, recursion, "recursive/subroutine constructs are not supported");
    let atomic = pattern_has(&p, "(?>");
    push_when(&mut issues, atomic, "atomic groups may be incompatible");
    let conditional = pattern_has(&p, "(?(");
    push_when(&mut issues, conditional, "conditional expressions are not supported");
    let callout = pattern_has(&p, "(?C");
    push_when(&mut issues, callout, "callouts are not supported");
    assert(issues@.map_values(|s: &str| s@) =~= compatibility_issues(pattern@));
    issues
}

} // verus!
