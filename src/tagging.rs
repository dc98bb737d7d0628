//! The pattern store and the tagging engine: named-capture regexes run over
//! each payload, and every named group that captured a non-empty span tags it.

use vstd::prelude::*;
use vstd::string::*;

verus! {

#[verifier::external_type_specification]
#[verifier::external_body]
pub struct ExRegex(pcre2::bytes::Regex);

/// Whether PCRE2 (JIT off, multi-line mode on) accepts a pattern.
pub uninterp spec fn pcre2_compiles(pattern: Seq<char>) -> bool;

/// The name of each group of a pattern that PCRE2 accepts, by index (`None`
/// for an unnamed group; group 0 is the whole match).
pub uninterp spec fn pcre2_group_names(pattern: Seq<char>) -> Seq<Option<Seq<char>>>;

/// The successive non-overlapping matches of a pattern over a subject, each as
/// the span of every group (`None` where the group took no part), up to the
/// first matching error.
pub uninterp spec fn pcre2_matches(pattern: Seq<char>, subject: Seq<u8>) -> Seq<Seq<Option<(usize, usize)>>>;

/// A regex compiled by PCRE2, with the text it was compiled from.
pub struct PcreRegex {
    regex: pcre2::bytes::Regex,
    source: String,
}

impl PcreRegex {
    /// The pattern text.
    pub closed spec fn source(&self) -> Seq<char> {
        self.source@
    }
}

/// The views of a list of group names.
pub open spec fn names_view(names: Seq<Option<String>>) -> Seq<Option<Seq<char>>> {
    names.map_values(|o: Option<String>| match o {
        Some(s) => Some(s@),
        None => None,
    })
}

/// The views of a list of matches.
pub open spec fn matches_view(m: Seq<Vec<Option<(usize, usize)>>>) -> Seq<Seq<Option<(usize, usize)>>> {
    m.map_values(|v: Vec<Option<(usize, usize)>>| v@)
}

/// Relies on `pcre2::bytes::RegexBuilder::build` with JIT off and multi-line
/// mode on: it succeeds exactly on the patterns PCRE2 accepts. A refused
/// pattern gives the error's text.
#[verifier::external_body]
fn compile_regex(pattern: &str) -> (r: Result<PcreRegex, String>)
    ensures
        r is Ok <==> pcre2_compiles(pattern@),
        r is Ok ==> r->Ok_0.source() == pattern@,
{
    pcre2::bytes::RegexBuilder::new()
        .jit_if_available(false)
        .multi_line(true)
        .build(pattern)
        .map(|regex| PcreRegex { regex, source: pattern.to_string() })
        .map_err(|err| err.to_string())
}

/// Relies on `pcre2::bytes::Regex::capture_names`: the name of each group by
/// index, `None` for an unnamed group.
#[verifier::external_body]
fn regex_capture_names(re: &PcreRegex) -> (r: Vec<Option<String>>)
    ensures
        names_view(r@) == pcre2_group_names(re.source()),
{
    re.regex.capture_names().to_vec()
}

/// Relies on `pcre2::bytes::Regex::captures_iter`: the successive
/// non-overlapping matches, each as the span of every group (`None` where the
/// group did not take part), spans lying within the subject. The walk stops
/// at the first matching error.
#[verifier::external_body]
fn regex_match_spans(re: &PcreRegex, subject: &[u8]) -> (r: Vec<Vec<Option<(usize, usize)>>>)
    ensures
        matches_view(r@) == pcre2_matches(re.source(), subject@),
        forall|m: int, g: int| 0 <= m < r@.len() && 0 <= g < r@[m]@.len() && (#[trigger] r@[m]@[g]) is Some ==>
            r@[m]@[g]->Some_0.0 <= r@[m]@[g]->Some_0.1 <= subject@.len(),
{
    let mut out = Vec::new();
    for caps in re.regex.captures_iter(subject) {
        match caps {
            Ok(c) => out.push((0..c.len()).map(|i| c.get(i).map(|m| (m.start(), m.end()))).collect()),
            Err(_) => break,
        }
    }
    out
}

/// A compiled pattern and the names of its groups.
pub struct CompiledPattern {
    regex: PcreRegex,
    names: Vec<Option<String>>,
}

/// Whether a list of group names holds a named group.
pub open spec fn has_named_group(names: Seq<Option<Seq<char>>>) -> bool {
    exists|i: int| 0 <= i < names.len() && names[i] is Some
}

impl CompiledPattern {
    /// The pattern text.
    pub closed spec fn source(&self) -> Seq<char> {
        self.regex.source()
    }

    /// The group names, by index.
    pub closed spec fn group_names(&self) -> Seq<Option<Seq<char>>> {
        names_view(self.names@)
    }

    /// The group names are those PCRE2 gives the pattern text.
    pub closed spec fn wf(&self) -> bool {
        self.group_names() == pcre2_group_names(self.source())
    }
}

/// The tags of one match: the name of each named group, in group order,
/// whose span is non-empty.
pub open spec fn match_tags(names: Seq<Option<Seq<char>>>, spans: Seq<Option<(usize, usize)>>) -> Seq<Seq<char>>
    decreases spans.len(),
{
    if spans.len() == 0 {
        Seq::empty()
    } else {
        let g = spans.len() - 1;
        let rest = match_tags(names, spans.drop_last());
        if g < names.len() && names[g] is Some && spans[g] is Some && spans[g]->Some_0.0 < spans[g]->Some_0.1 {
            rest.push(names[g]->Some_0)
        } else {
            rest
        }
    }
}

/// The tags of successive matches, in order.
pub open spec fn matches_tags(names: Seq<Option<Seq<char>>>, matches: Seq<Seq<Option<(usize, usize)>>>) -> Seq<Seq<char>>
    decreases matches.len(),
{
    if matches.len() == 0 {
        Seq::empty()
    } else {
        matches_tags(names, matches.drop_last()) + match_tags(names, matches.last())
    }
}

/// The tags of several patterns, each with the matches it found, in pattern order.
pub open spec fn patterns_tags(patterns: Seq<CompiledPattern>, found: Seq<Seq<Seq<Option<(usize, usize)>>>>) -> Seq<Seq<char>>
    decreases found.len(),
{
    if found.len() == 0 {
        Seq::empty()
    } else {
        patterns_tags(patterns, found.drop_last()) + matches_tags(patterns[found.len() - 1].group_names(), found.last())
    }
}

/// The tags that a list of patterns gives a payload: over the patterns in
/// order, every match of each in order, every named group with a non-empty span.
pub open spec fn payload_tags(patterns: Seq<CompiledPattern>, payload: Seq<u8>) -> Seq<Seq<char>> {
    patterns_tags(patterns, Seq::new(patterns.len(), |i: int| pcre2_matches(patterns[i].source(), payload)))
}

/// Compiles a tagging pattern; a pattern that PCRE2 refuses, or that declares
/// no named group, is refused.
pub fn build_regex(pattern: &str) -> (r: Result<CompiledPattern, String>)
    ensures
        r is Ok <==> (pcre2_compiles(pattern@) && has_named_group(pcre2_group_names(pattern@))),
        r is Ok ==> r->Ok_0.source() == pattern@ && r->Ok_0.group_names() == pcre2_group_names(pattern@),
        r is Ok ==> r->Ok_0.wf(),
{
    let regex = compile_regex(pattern)?;
    let names = regex_capture_names(&regex);
    let ghost nv = names_view(names@);
    let mut i: usize = 0;
    while i < names.len()
        invariant
            i <= names@.len(),
            nv == names_view(names@),
            nv == pcre2_group_names(pattern@),
            regex.source() == pattern@,
            pcre2_compiles(pattern@),
            forall|k: int| 0 <= k < i ==> nv[k] is None,
        decreases names.len() - i,
    {
        if names[i].is_some() {
            assert(nv[i as int] is Some);
            return Ok(CompiledPattern { regex, names });
        }
        i = i + 1;
    }
    assert(!has_named_group(pcre2_group_names(pattern@)));
    let mut message = String::from_str("pattern '");
    message.append(pattern);
    message.append("' declares no named capture group");
    Err(message)
}

/// Collects the tags of a pattern's matches: for every match, every named
/// group that captured a non-empty span, in group order.
pub fn tags_from_matches(names: &Vec<Option<String>>, matches: &Vec<Vec<Option<(usize, usize)>>>) -> (r: Vec<String>)
    ensures
        r@.map_values(|s: String| s@) == matches_tags(names_view(names@), matches_view(matches@)),
{
    let ghost nv = names_view(names@);
    let ghost mv = matches_view(matches@);
    let mut out: Vec<String> = Vec::new();
    let mut m: usize = 0;
    assert(out@.map_values(|s: String| s@) =~= matches_tags(nv, mv.take(0)));
    while m < matches.len()
        invariant
            m <= matches@.len(),
            nv == names_view(names@),
            mv == matches_view(matches@),
            out@.map_values(|s: String| s@) == matches_tags(nv, mv.take(m as int)),
        decreases matches.len() - m,
    {
        let spans = &matches[m];
        let ghost base = out@.map_values(|s: String| s@);
        let mut g: usize = 0;
        assert(out@.map_values(|s: String| s@) =~= base + match_tags(nv, spans@.take(0)));
        while g < spans.len()
            invariant
                g <= spans@.len(),
                nv == names_view(names@),
                out@.map_values(|s: String| s@) == base + match_tags(nv, spans@.take(g as int)),
            decreases spans.len() - g,
        {
            proof {
                assert(spans@.take(g + 1).drop_last() =~= spans@.take(g as int));
            }
            if g < names.len() {
                if let Some(name) = &names[g] {
                    if let Some((start, end)) = spans[g] {
                        if start < end {
                            let ghost before = out@.map_values(|s: String| s@);
                            assert(spans@.take(g + 1)[g as int] == spans@[g as int]);
                            assert(nv[g as int] == Some(name@));
                            assert(match_tags(nv, spans@.take(g + 1)) == match_tags(nv, spans@.take(g as int)).push(name@));
                            out.push(name.clone());
                            assert(out@.map_values(|s: String| s@) =~= before.push(name@));
                        }
                    }
                }
            }
            assert(out@.map_values(|s: String| s@) =~= base + match_tags(nv, spans@.take(g + 1)));
            g = g + 1;
        }
        proof {
            assert(spans@.take(g as int) =~= spans@);
            assert(mv.take(m + 1).drop_last() =~= mv.take(m as int));
            assert(mv[m as int] == spans@);
            assert(out@.map_values(|s: String| s@) =~= matches_tags(nv, mv.take(m + 1)));
        }
        m = m + 1;
    }
    assert(mv.take(m as int) =~= mv);
    out
}

/// Runs every pattern over a payload and collects its tags, in pattern order
/// and then in match and group order. The payload matched when a tag fired.
pub fn tag_payload(patterns: &Vec<CompiledPattern>, payload: &[u8]) -> (r: (Vec<String>, bool))
    ensures
        r.0@.map_values(|s: String| s@) == payload_tags(patterns@, payload@),
        r.1 == (r.0@.len() > 0),
{
    let mut tags: Vec<String> = Vec::new();
    let mut i: usize = 0;
    let ghost all = Seq::new(patterns@.len(), |k: int| pcre2_matches(patterns@[k].source(), payload@));
    assert(tags@.map_values(|s: String| s@) =~= patterns_tags(patterns@, all.take(0)));
    while i < patterns.len()
        invariant
            i <= patterns@.len(),
            all == Seq::new(patterns@.len(), |k: int| pcre2_matches(patterns@[k].source(), payload@)),
            tags@.map_values(|s: String| s@) == patterns_tags(patterns@, all.take(i as int)),
        decreases patterns.len() - i,
    {
        let spans = regex_match_spans(&patterns[i].regex, payload);
        let mut more = tags_from_matches(&patterns[i].names, &spans);
        let ghost before = tags@.map_values(|s: String| s@);
        let ghost added = more@.map_values(|s: String| s@);
        tags.append(&mut more);
        proof {
            assert(tags@.map_values(|s: String| s@) =~= before + added);
            assert(all.take(i + 1).drop_last() =~= all.take(i as int));
            assert(patterns@[i as int].source() == patterns@[i as int].regex.source());
            assert(patterns@[i as int].group_names() == names_view(patterns@[i as int].names@));
        }
        i = i + 1;
    }
    assert(all.take(i as int) =~= all);
    let matched = tags.len() > 0;
    (tags, matched)
}

} // verus!
